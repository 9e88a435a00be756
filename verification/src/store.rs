//! Tables on pages: the tree of a table's rows and the trees of its indexes,
//! kept in step.

use crate::btree;
use crate::btree_bulk;
use crate::btree_node;
use crate::btree_writer;
use crate::btree_writer::BTreeWriter;
use crate::error::{BoogyError, Result};
use crate::file;
use crate::file::WriteGuard;
use crate::index;
use crate::index::encode_index_key;
use crate::index_node;
use crate::index_tree;
use crate::index_tree::IndexTreeWriter;
use crate::overflow;
use crate::page;
use crate::room;
use crate::row;
use crate::row::extract_column;
use crate::table;
use crate::table::{IndexView, TableMeta, TableView};
use crate::tree;
use crate::tree::Key;
use crate::value::{ColumnView, Type, Value, ValueView};
use vstd::prelude::*;

verus! {

/// The page belongs to the tree of rows at `root`.
pub open spec fn row_page(m: Map<u32, Seq<u8>>, root: u32, q: u32) -> bool {
    tree::has(btree::view_of(m), root, q)
}

/// The page belongs to the index tree at `root`.
pub open spec fn key_page(m: Map<u32, Seq<u8>>, root: u32, q: u32) -> bool {
    tree::has(index_node::idx_view(m), root, q)
}

/// The cell holds a whole row with that number.
pub open spec fn good_cell(m: Map<u32, Seq<u8>>, k: u64, cell: Seq<u8>) -> bool {
    &&& btree::expands(m, cell)
    &&& btree_node::id_of(btree::expand(m, cell)->0) == k
    &&& btree_bulk::sound_cell(m, cell)
}

/// The row under a number can be read.
pub open spec fn good_at(m: Map<u32, Seq<u8>>, root: u32, k: u64) -> bool {
    btree::cell_at(m, root, k) matches Some(cell) ==> good_cell(m, k, cell)
}

/// A tree of rows, all of which can be read.
pub open spec fn rows_sound(m: Map<u32, Seq<u8>>, root: u32) -> bool {
    &&& btree::is_tree(m, root)
    &&& forall|k: u64| #[trigger] good_at(m, root, k)
}

/// The rows of a tree by their numbers.
pub open spec fn rows_of(m: Map<u32, Seq<u8>>, root: u32) -> Map<u64, Seq<u8>> {
    Map::new(
        |k: u64| btree::cell_at(m, root, k) is Some,
        |k: u64| btree::expand(m, btree::cell_at(m, root, k)->0)->0,
    )
}

/// What an index lists of a row: nothing if it is null or of no indexable type;
/// `None` if the column cannot be read.
pub open spec fn entry_of(
    columns: Seq<ColumnView>,
    ix: IndexView,
    bytes: Seq<u8>,
    k: u64,
) -> Option<Option<Seq<u8>>> {
    let column = table::leading(ix);
    match (table::column_id(columns, column), table::column_type(columns, column)) {
        (Some(c), Some(t)) => match row::column_of(bytes, c) {
            None => None,
            Some(None) => Some(index::key_code(t, ValueView::Null, k)),
            Some(Some(v)) => Some(index::key_code(t, v, k)),
        },
        _ => Some(None),
    }
}

/// A key is listed for one of the rows.
pub open spec fn listed(
    columns: Seq<ColumnView>,
    ix: IndexView,
    rows: Map<u64, Seq<u8>>,
    key: Seq<u8>,
) -> bool {
    exists|k: u64|
        rows.contains_key(k) && (#[trigger] entry_of(columns, ix, rows[k], k)) == Some(Some(key))
}

/// The index tree holds a key exactly if it is listed for one of the rows.
#[verifier::opaque]
pub open spec fn index_matches(
    m: Map<u32, Seq<u8>>,
    columns: Seq<ColumnView>,
    ix: IndexView,
    rows: Map<u64, Seq<u8>>,
) -> bool {
    &&& index_tree::is_index(m, ix.root_page)
    &&& forall|key: Seq<u8>|
        (#[trigger] index_tree::key_at(m, ix.root_page, key)) is Some <==> listed(
            columns,
            ix,
            rows,
            key,
        )
}

/// The trees of a table share no page.
#[verifier::opaque]
pub open spec fn apart(m: Map<u32, Seq<u8>>, v: TableView) -> bool {
    &&& forall|i: int, q: u32|
        0 <= i < v.indexes.len() ==> !(#[trigger] key_page(m, v.indexes[i].root_page, q) && row_page(
            m,
            v.root_page,
            q,
        ))
    &&& forall|i: int, j: int, q: u32|
        0 <= i < j < v.indexes.len() ==> !(#[trigger] key_page(m, v.indexes[i].root_page, q)
            && #[trigger] key_page(m, v.indexes[j].root_page, q))
}

/// The page belongs to one of the trees of a table.
pub open spec fn table_page(m: Map<u32, Seq<u8>>, v: TableView, q: u32) -> bool {
    row_page(m, v.root_page, q) || exists|i: int|
        0 <= i < v.indexes.len() && #[trigger] key_page(m, v.indexes[i].root_page, q)
}

/// The index at a place lists some rows if it is one of the first, else others.
pub open spec fn staged(
    m: Map<u32, Seq<u8>>,
    v: TableView,
    rows: Map<u64, Seq<u8>>,
    done: Map<u64, Seq<u8>>,
    n: int,
    j: int,
) -> bool {
    index_matches(
        m,
        v.columns,
        v.indexes[j],
        if j < n {
            done
        } else {
            rows
        },
    )
}

/// The rows of a tree lead to trimmed pages.
pub open spec fn cells_trim(m: Map<u32, Seq<u8>>, root: u32) -> bool {
    forall|k: u64| (#[trigger] btree::cell_at(m, root, k)) matches Some(c) ==> btree::cell_trim(m, c)
}

/// The pages of an encrypted table are trimmed, and so are those that its rows lead to.
#[verifier::opaque]
pub open spec fn trim(m: Map<u32, Seq<u8>>, v: TableView) -> bool {
    v.encrypted ==> {
        &&& forall|q: u32| #[trigger] table_page(m, v, q) ==> page::trimmed(m[q])
        &&& cells_trim(m, v.root_page)
    }
}

/// The pages of an encrypted table stay trimmed.
pub proof fn trim_step(m: Map<u32, Seq<u8>>, m2: Map<u32, Seq<u8>>, v: TableView, v2: TableView)
    requires
        trim(m, v),
        v2.encrypted == v.encrypted,
        v.encrypted ==> file::keeps_trim(m, m2) && cells_trim(m2, v2.root_page),
        forall|q: u32| #[trigger]
            table_page(m2, v2, q) ==> m2.contains_key(q) && (table_page(m, v, q) || !m.contains_key(
                q,
            )),
    ensures
        trim(m2, v2),
{
    reveal(trim);
}

/// The pages of the tree of rows of an encrypted table are trimmed.
proof fn trimmed_rows(m: Map<u32, Seq<u8>>, v: TableView)
    requires
        trim(m, v),
    ensures
        v.encrypted ==> forall|q: u32| #[trigger]
            row_page(m, v.root_page, q) ==> page::trimmed(m[q]),
{
    reveal(trim);
    assert forall|q: u32| v.encrypted && #[trigger] row_page(
        m,
        v.root_page,
        q,
    ) implies page::trimmed(m[q]) by {
        assert(table_page(m, v, q));
    }
}

/// An index of a table that is trimmed where it has to be is not loose.
pub proof fn not_loose(m: Map<u32, Seq<u8>>, v: TableView, i: int, cap: int)
    requires
        trim(m, v),
        0 <= i < v.indexes.len(),
        cap < 4092 ==> v.encrypted,
    ensures
        !index_tree::loose(
            m,
            v.indexes[i].root_page,
            tree::height(index_node::idx_view(m), v.indexes[i].root_page),
            cap,
        ),
{
    reveal(trim);
    let t = index_node::idx_view(m);
    let root = v.indexes[i].root_page;
    let h = tree::height(t, root);
    if cap < 4092 {
        assert forall|q: u32| #[trigger] tree::owns(t, root, h, q) implies page::trimmed(m[q]) by {
            assert(key_page(m, root, q));
            assert(table_page(m, v, q));
        }
    }
}

/// A cell leads to the same pages while those stay.
pub proof fn cell_trim_kept(m: Map<u32, Seq<u8>>, m2: Map<u32, Seq<u8>>, cell: Seq<u8>)
    requires
        btree_bulk::sound_cell(m, cell),
        btree_writer::overflow_kept(m, m2),
        btree::cell_trim(m, cell),
    ensures
        btree::cell_trim(m2, cell),
{
    if overflow::overflows(cell) {
        let remaining = overflow::trailer_remaining(cell) as nat;
        btree_writer::chain_kept(
            m,
            m2,
            overflow::trailer_page(cell),
            remaining,
            btree::chain_fuel(remaining),
        );
    }
}

/// The rows of a tree still lead to trimmed pages when each is one of before or does.
pub proof fn cells_trim_step(m: Map<u32, Seq<u8>>, m2: Map<u32, Seq<u8>>, v: TableView, root2: u32)
    requires
        trim(m, v),
        v.encrypted,
        rows_sound(m, v.root_page),
        btree_writer::overflow_kept(m, m2),
        forall|k: u64| (#[trigger] btree::cell_at(m2, root2, k)) matches Some(c) ==> btree::cell_at(
            m,
            v.root_page,
            k,
        ) == Some(c) || btree::cell_trim(m2, c),
    ensures
        cells_trim(m2, root2),
{
    reveal(trim);
    assert forall|k: u64| (#[trigger] btree::cell_at(m2, root2, k)) matches Some(
        c,
    ) implies btree::cell_trim(m2, btree::cell_at(m2, root2, k)->0) by {
        let c = btree::cell_at(m2, root2, k)->0;
        if !btree::cell_trim(m2, c) {
            assert(good_at(m, v.root_page, k));
            cell_trim_kept(m, m2, c);
        }
    }
}

/// The first indexes list some rows, the others list other rows.
pub open spec fn stage(
    m: Map<u32, Seq<u8>>,
    v: TableView,
    rows: Map<u64, Seq<u8>>,
    done: Map<u64, Seq<u8>>,
    n: int,
) -> bool {
    &&& rows_sound(m, v.root_page)
    &&& apart(m, v)
    &&& trim(m, v)
    &&& forall|j: int|
        0 <= j < v.indexes.len() ==> #[trigger] staged(m, v, rows, done, n, j)
}

/// The rows of a table.
pub open spec fn table_rows(m: Map<u32, Seq<u8>>, v: TableView) -> Map<u64, Seq<u8>> {
    rows_of(m, v.root_page)
}

/// What the indexes list of each row is readable and short.
pub open spec fn all_indexable(v: TableView, rows: Map<u64, Seq<u8>>) -> bool {
    forall|k: u64| #[trigger] rows.contains_key(k) ==> indexable(v, rows[k], k)
}

/// A table whose rows can be read and whose indexes list them.
#[verifier::opaque]
pub open spec fn table_ok(m: Map<u32, Seq<u8>>, v: TableView) -> bool {
    &&& stage(m, v, table_rows(m, v), table_rows(m, v), 0)
    &&& all_indexable(v, table_rows(m, v))
}

/// A row that can be read back once it is stored: it is not too long.
pub open spec fn readable(bytes: Seq<u8>) -> bool {
    bytes.len() <= btree::MAX_REASSEMBLE_SIZE
}

/// What the indexes of a table list of the row is readable and not too long.
pub open spec fn indexable(v: TableView, bytes: Seq<u8>, k: u64) -> bool {
    forall|i: int|
        0 <= i < v.indexes.len() ==> short_entry(
            #[trigger] entry_of(v.columns, v.indexes[i], bytes, k),
        )
}

pub open spec fn short_entry(e: Option<Option<Seq<u8>>>) -> bool {
    match e {
        None => false,
        Some(None) => true,
        Some(Some(key)) => key.len() <= index_node::MAX_INDEX_KEY,
    }
}

/// An index tree that is not too deep, and a key that is not too long for it.
pub open spec fn open_for(m: Map<u32, Seq<u8>>, root: u32, key: Seq<u8>) -> bool {
    index_tree::walkable_index(m, root) && key.len() <= index_node::MAX_INDEX_KEY
}

/// The index can take what it is to list of a row.
pub open spec fn can_list(m: Map<u32, Seq<u8>>, v: TableView, j: int, bytes: Seq<u8>, k: u64) -> bool {
    entry_of(v.columns, v.indexes[j], bytes, k) matches Some(Some(key)) ==> open_for(
        m,
        v.indexes[j].root_page,
        key,
    )
}

/// The index is not too deep.
pub open spec fn shallow(m: Map<u32, Seq<u8>>, v: TableView, j: int) -> bool {
    index_tree::walkable_index(m, v.indexes[j].root_page)
}

/// No tree of the table is too deep.
pub open spec fn workable(m: Map<u32, Seq<u8>>, v: TableView) -> bool {
    &&& btree::walkable(m, v.root_page)
    &&& forall|j: int| 0 <= j < v.indexes.len() ==> #[trigger] shallow(m, v, j)
}

/// No tree of a table that is in order is too deep.
pub proof fn always_workable(m: Map<u32, Seq<u8>>, v: TableView)
    requires
        table_ok(m, v),
    ensures
        workable(m, v),
{
    reveal(table_ok);
    reveal(index_matches);
    btree::never_deep(m, v.root_page);
    assert forall|j: int| 0 <= j < v.indexes.len() implies #[trigger] shallow(m, v, j) by {
        assert(staged(m, v, table_rows(m, v), table_rows(m, v), 0, j));
        index_tree::index_never_deep(m, v.indexes[j].root_page);
    }
}

/// No index of a table at a stage is too deep.
pub proof fn stage_shallow(m: Map<u32, Seq<u8>>, v: TableView, rows: Map<u64, Seq<u8>>)
    requires
        stage(m, v, rows, rows, 0),
    ensures
        forall|j: int| 0 <= j < v.indexes.len() ==> #[trigger] shallow(m, v, j),
{
    reveal(index_matches);
    assert forall|j: int| 0 <= j < v.indexes.len() implies #[trigger] shallow(m, v, j) by {
        assert(staged(m, v, rows, rows, 0, j));
        index_tree::index_never_deep(m, v.indexes[j].root_page);
    }
}

/// There are enough page numbers left for storing a row of a length.
pub open spec fn enough_pages(v: TableView, total: int, len: int) -> bool {
    total + 66 * (1 + v.indexes.len()) + btree_writer::pages_for(len) <= u32::MAX
}

/// How many pages storing a row of a length takes at most.
pub open spec fn most_pages(v: TableView, len: int) -> int {
    34 + 66 * v.indexes.len() + btree_writer::pages_for(len)
}

/// How many page numbers storing a row of at most `max` bytes asks for.
pub open spec fn row_pages(v: TableView, max: u32) -> int {
    66 * (1 + v.indexes.len()) + btree_writer::pages_for(max as int)
}

/// From one state of the pages to the next, only pages of the table changed,
/// and it took over only new ones.
#[verifier::opaque]
pub open spec fn only_table(
    m: Map<u32, Seq<u8>>,
    m2: Map<u32, Seq<u8>>,
    v: TableView,
    v2: TableView,
) -> bool {
    &&& forall|q: u32| #[trigger]
        m.contains_key(q) && !table_page(m, v, q) ==> m2.contains_key(q) && m2[q] == m[q]
    &&& forall|q: u32| #[trigger]
        table_page(m2, v2, q) ==> table_page(m, v, q) || !m.contains_key(q)
    &&& btree_writer::overflow_kept(m, m2)
}

/// The same table but for the roots of its trees.
pub open spec fn rerooted(v: TableView, v2: TableView) -> bool {
    &&& v2.indexes.len() == v.indexes.len()
    &&& v2 == (TableView { root_page: v2.root_page, indexes: v2.indexes, ..v })
    &&& forall|i: int|
        0 <= i < v.indexes.len() ==> (#[trigger] v2.indexes[i]) == (IndexView {
            root_page: v2.indexes[i].root_page,
            ..v.indexes[i]
        })
}

/// The state of a table does not depend on how often its indexes are counted as
/// done when the rows are the same.
pub proof fn stage_same(m: Map<u32, Seq<u8>>, v: TableView, rows: Map<u64, Seq<u8>>, n: int, k: int)
    requires
        stage(m, v, rows, rows, n),
    ensures
        stage(m, v, rows, rows, k),
{
    assert forall|j: int| 0 <= j < v.indexes.len() implies #[trigger] staged(
        m,
        v,
        rows,
        rows,
        k,
        j,
    ) by {
        assert(staged(m, v, rows, rows, n, j));
    }
}

/// Pages of a tree of rows exist and hold no part of a row.
pub proof fn row_pages_exist(m: Map<u32, Seq<u8>>, root: u32)
    requires
        btree::is_tree(m, root),
    ensures
        forall|q: u32| #[trigger]
            row_page(m, root, q) ==> m.contains_key(q) && page::flags_of(m[q])
                != page::PAGE_OVERFLOW && m[q].len() == 4096,
{
    let t = btree::view_of(m);
    let h = tree::height(t, root);
    assert(tree::is_root(t, root, h));
    tree::owned_exist(t, root, h, None, None, 0);
    assert forall|q: u32| #[trigger] row_page(m, root, q) implies m.contains_key(q)
        && page::flags_of(m[q]) != page::PAGE_OVERFLOW && m[q].len() == 4096 by {
        assert(tree::owns(t, root, h, q));
        btree_node::node_size(m[q]);
        if page::flags_of(m[q]) == page::PAGE_OVERFLOW {
            btree_writer::overflow_no_node(m[q]);
        }
    }
}

/// Pages of an index tree exist and hold no part of a row.
pub proof fn key_pages_exist(m: Map<u32, Seq<u8>>, root: u32)
    requires
        index_tree::is_index(m, root),
    ensures
        forall|q: u32| #[trigger]
            key_page(m, root, q) ==> m.contains_key(q) && page::flags_of(m[q])
                != page::PAGE_OVERFLOW && m[q].len() == 4096,
{
    let t = index_node::idx_view(m);
    let h = tree::height(t, root);
    assert(tree::is_root(t, root, h));
    tree::owned_exist(t, root, h, None, None, 0);
    assert forall|q: u32| #[trigger] key_page(m, root, q) implies m.contains_key(q)
        && page::flags_of(m[q]) != page::PAGE_OVERFLOW && m[q].len() == 4096 by {
        assert(tree::owns(t, root, h, q));
        btree_node::node_size(m[q]);
        if page::flags_of(m[q]) == page::PAGE_OVERFLOW {
            assert(0x10u16 & 1u16 == 0) by (bit_vector);
            assert(0x10u16 & 2u16 == 0) by (bit_vector);
            btree_node::leaf_basics(m[q]);
            assert(index_node::idx_node_of(m[q]) is Other);
        }
    }
}

/// A row stays readable while the pages that hold parts of rows stay.
pub proof fn good_cell_kept(m: Map<u32, Seq<u8>>, m2: Map<u32, Seq<u8>>, k: u64, cell: Seq<u8>)
    requires
        good_cell(m, k, cell),
        btree_writer::overflow_kept(m, m2),
    ensures
        good_cell(m2, k, cell),
        btree::expand(m2, cell) == btree::expand(m, cell),
{
    if overflow::overflows(cell) {
        let remaining = overflow::trailer_remaining(cell) as nat;
        btree_writer::chain_kept(
            m,
            m2,
            overflow::trailer_page(cell),
            remaining,
            btree::chain_fuel(remaining),
        );
    }
}

/// The cell leads to the same row, over trimmed pages if it did before.
pub open spec fn same_cell(
    m: Map<u32, Seq<u8>>,
    m2: Map<u32, Seq<u8>>,
    k: u64,
    cell: Seq<u8>,
) -> bool {
    &&& good_cell(m2, k, cell)
    &&& btree::expand(m2, cell) == btree::expand(m, cell)
    &&& btree::cell_trim(m, cell) ==> btree::cell_trim(m2, cell)
}

/// The cells of a tree of rows lead to the same rows.
pub open spec fn cells_same(m: Map<u32, Seq<u8>>, m2: Map<u32, Seq<u8>>, root: u32) -> bool {
    forall|k: u64| (#[trigger] btree::cell_at(m, root, k)) matches Some(c) ==> same_cell(m, m2, k, c)
}

/// The cells lead to the same rows while the pages that hold parts of rows stay.
pub proof fn cells_lead_on(m: Map<u32, Seq<u8>>, m2: Map<u32, Seq<u8>>, root: u32)
    requires
        rows_sound(m, root),
        btree_writer::overflow_kept(m, m2),
    ensures
        cells_same(m, m2, root),
{
    assert forall|k: u64| (#[trigger] btree::cell_at(m, root, k)) matches Some(c) implies same_cell(
        m,
        m2,
        k,
        btree::cell_at(m, root, k)->0,
    ) by {
        let c = btree::cell_at(m, root, k)->0;
        assert(good_at(m, root, k));
        good_cell_kept(m, m2, k, c);
        if btree::cell_trim(m, c) {
            cell_trim_kept(m, m2, c);
        }
    }
}

/// A chain of trimmed pages reads the same while the trimmed overflow pages are kept.
proof fn trimmed_chain_kept(
    m: Map<u32, Seq<u8>>,
    m2: Map<u32, Seq<u8>>,
    page: u32,
    left: nat,
    f: nat,
)
    requires
        trimmed_overflow_kept(m, m2),
        btree::chain_apart(m, page, left, f),
        btree::chain_trim(m, page, left, f),
    ensures
        btree::chain(m2, page, left, f) == btree::chain(m, page, left, f),
        btree::chain_apart(m2, page, left, f),
        btree::chain_trim(m2, page, left, f),
    decreases f,
{
    if page != 0 && left != 0 {
        let part = overflow::payload_of(m[page]);
        let n: nat = if part.len() <= left {
            part.len()
        } else {
            left
        };
        assert(m.contains_key(page));
        trimmed_chain_kept(m, m2, page::next_of(m[page]), (left - n) as nat, (f - 1) as nat);
    }
}

/// Overflow pages that are trimmed are as they were.
pub open spec fn trimmed_overflow_kept(m: Map<u32, Seq<u8>>, m2: Map<u32, Seq<u8>>) -> bool {
    forall|q: u32| #[trigger]
        m.contains_key(q) && page::flags_of(m[q]) == page::PAGE_OVERFLOW && page::trimmed(m[q])
            ==> m2.contains_key(q) && m2[q] == m[q]
}

/// The cells of an encrypted table lead to the same rows while the trimmed pages that
/// hold parts of rows stay.
pub proof fn trimmed_cells_lead_on(m: Map<u32, Seq<u8>>, m2: Map<u32, Seq<u8>>, v: TableView)
    requires
        rows_sound(m, v.root_page),
        trim(m, v),
        v.encrypted,
        trimmed_overflow_kept(m, m2),
    ensures
        cells_same(m, m2, v.root_page),
{
    let root = v.root_page;
    reveal(trim);
    assert forall|k: u64| (#[trigger] btree::cell_at(m, root, k)) matches Some(c) implies same_cell(
        m,
        m2,
        k,
        btree::cell_at(m, root, k)->0,
    ) by {
        let c = btree::cell_at(m, root, k)->0;
        assert(good_at(m, root, k));
        if overflow::overflows(c) {
            let remaining = overflow::trailer_remaining(c) as nat;
            trimmed_chain_kept(
                m,
                m2,
                overflow::trailer_page(c),
                remaining,
                btree::chain_fuel(remaining),
            );
        }
    }
}

/// A tree of rows stays while its pages stay and its cells lead to the same rows.
pub proof fn rows_kept(m: Map<u32, Seq<u8>>, m2: Map<u32, Seq<u8>>, root: u32)
    requires
        rows_sound(m, root),
        cells_same(m, m2, root),
        forall|q: u32| #[trigger]
            row_page(m, root, q) ==> m2.contains_key(q) && m2[q] == m[q],
    ensures
        rows_sound(m2, root),
        rows_of(m2, root) == rows_of(m, root),
        btree::all_cells(m2, root) == btree::all_cells(m, root),
        btree::expanded(m2, btree::all_cells(m2, root)) == btree::expanded(
            m,
            btree::all_cells(m, root),
        ),
        tree::height(btree::view_of(m2), root) == tree::height(btree::view_of(m), root),
        forall|q: u32| #[trigger] row_page(m2, root, q) == row_page(m, root, q),
        forall|k: u64| #[trigger] btree::cell_at(m2, root, k) == btree::cell_at(m, root, k),
{
    let t = btree::view_of(m);
    let t2 = btree::view_of(m2);
    row_pages_exist(m, root);
    assert forall|q: u32| #[trigger] tree::has(t, root, q) implies t2.contains_key(q) && t2[q]
        == t[q] by {
        assert(row_page(m, root, q));
    }
    tree::tree_kept(t, t2, root);
    assert forall|k: u64| #[trigger] good_at(m2, root, k) by {
        assert(good_at(m, root, k));
        assert(btree::cell_at(m2, root, k) == btree::cell_at(m, root, k));
        if btree::cell_at(m, root, k) is Some {
            assert(same_cell(m, m2, k, btree::cell_at(m, root, k)->0));
        }
    }
    assert forall|k: u64| #[trigger] rows_of(m, root).contains_key(k) implies rows_of(
        m2,
        root,
    ).contains_key(k) && rows_of(m2, root)[k] == rows_of(m, root)[k] by {
        assert(good_at(m, root, k));
        assert(btree::cell_at(m2, root, k) == btree::cell_at(m, root, k));
        assert(same_cell(m, m2, k, btree::cell_at(m, root, k)->0));
    }
    assert forall|k: u64| #[trigger] rows_of(m2, root).contains_key(k) implies rows_of(
        m,
        root,
    ).contains_key(k) by {
        assert(btree::cell_at(m2, root, k) == btree::cell_at(m, root, k));
    }
    assert(rows_of(m2, root) =~= rows_of(m, root));
    let cells = btree::all_cells(m, root);
    assert forall|i: int| 0 <= i < cells.len() implies btree::whole(m2, (#[trigger] cells[i]).1)
        == btree::whole(m, cells[i].1) by {
        listed_cell(m, root, i);
        assert(good_at(m, root, cells[i].0));
        assert(same_cell(m, m2, cells[i].0, cells[i].1));
    }
    assert(btree::expanded(m2, cells) =~= btree::expanded(m, cells));
}

/// A cell in the list of all cells is the one found under its number.
pub proof fn listed_cell(m: Map<u32, Seq<u8>>, root: u32, i: int)
    requires
        btree::is_tree(m, root),
        0 <= i < btree::all_cells(m, root).len(),
    ensures
        ({
            let c = btree::all_cells(m, root)[i];
            btree::cell_at(m, root, c.0) == Some(c.1)
        }),
{
    let t = btree::view_of(m);
    let cells = btree::all_cells(m, root);
    tree::all_sorted(t, root);
    tree::item_find_at(cells, None, None, i);
    assert(btree::cell_at(m, root, cells[i].0) == tree::item_find(cells, cells[i].0));
}

/// An index tree stays while its pages stay.
pub proof fn index_kept(
    m: Map<u32, Seq<u8>>,
    m2: Map<u32, Seq<u8>>,
    columns: Seq<ColumnView>,
    ix: IndexView,
    rows: Map<u64, Seq<u8>>,
)
    requires
        index_matches(m, columns, ix, rows),
        forall|q: u32| #[trigger]
            key_page(m, ix.root_page, q) ==> m2.contains_key(q) && m2[q] == m[q],
    ensures
        index_matches(m2, columns, ix, rows),
        forall|q: u32| #[trigger] key_page(m2, ix.root_page, q) == key_page(m, ix.root_page, q),
        index_tree::all_keys(m2, ix.root_page) == index_tree::all_keys(m, ix.root_page),
        index_tree::walkable_index(m2, ix.root_page) == index_tree::walkable_index(m, ix.root_page),
        forall|key: Seq<u8>| #[trigger]
            open_for(m2, ix.root_page, key) == open_for(m, ix.root_page, key),
{
    reveal(index_matches);
    let t = index_node::idx_view(m);
    let t2 = index_node::idx_view(m2);
    let root = ix.root_page;
    key_pages_exist(m, root);
    assert forall|q: u32| #[trigger] tree::has(t, root, q) implies t2.contains_key(q) && t2[q]
        == t[q] by {
        assert(key_page(m, root, q));
    }
    tree::tree_kept(t, t2, root);
    assert forall|key: Seq<u8>| #[trigger] index_tree::key_at(m2, root, key) == index_tree::key_at(
        m,
        root,
        key,
    ) by {}
    assert forall|key: Seq<u8>| #[trigger] open_for(m2, root, key) == open_for(m, root, key) by {
        let q = tree::leaf_for(t, root, tree::height(t, root), key);
        assert(tree::leaf_for(t2, root, tree::height(t2, root), key) == q);
        assert(key_page(m, root, q));
    }
}

/// A table stays while its pages and the pages that hold parts of rows stay.
pub proof fn table_kept(
    m: Map<u32, Seq<u8>>,
    m2: Map<u32, Seq<u8>>,
    v: TableView,
    rows: Map<u64, Seq<u8>>,
    done: Map<u64, Seq<u8>>,
    n: int,
)
    requires
        stage(m, v, rows, done, n),
        btree_writer::overflow_kept(m, m2),
        forall|q: u32| #[trigger] table_page(m, v, q) ==> m2.contains_key(q) && m2[q] == m[q],
    ensures
        stage(m2, v, rows, done, n),
        table_rows(m2, v) == table_rows(m, v),
        btree::expanded(m2, btree::all_cells(m2, v.root_page)) == btree::expanded(
            m,
            btree::all_cells(m, v.root_page),
        ),
        btree::all_cells(m2, v.root_page) == btree::all_cells(m, v.root_page),
        forall|q: u32| #[trigger] table_page(m2, v, q) == table_page(m, v, q),
{
    cells_lead_on(m, m2, v.root_page);
    table_kept_by_cells(m, m2, v, rows, done, n);
}

/// A table stays while its pages stay and its cells lead to the same rows.
pub proof fn table_kept_by_cells(
    m: Map<u32, Seq<u8>>,
    m2: Map<u32, Seq<u8>>,
    v: TableView,
    rows: Map<u64, Seq<u8>>,
    done: Map<u64, Seq<u8>>,
    n: int,
)
    requires
        stage(m, v, rows, done, n),
        cells_same(m, m2, v.root_page),
        forall|q: u32| #[trigger] table_page(m, v, q) ==> m2.contains_key(q) && m2[q] == m[q],
    ensures
        stage(m2, v, rows, done, n),
        table_rows(m2, v) == table_rows(m, v),
        btree::expanded(m2, btree::all_cells(m2, v.root_page)) == btree::expanded(
            m,
            btree::all_cells(m, v.root_page),
        ),
        btree::all_cells(m2, v.root_page) == btree::all_cells(m, v.root_page),
        forall|q: u32| #[trigger] table_page(m2, v, q) == table_page(m, v, q),
{
    reveal(apart);
    assert forall|q: u32| #[trigger] row_page(m, v.root_page, q) implies m2.contains_key(q)
        && m2[q] == m[q] by {
        assert(table_page(m, v, q));
    }
    rows_kept(m, m2, v.root_page);
    assert forall|j: int| 0 <= j < v.indexes.len() implies #[trigger] staged(
        m2,
        v,
        rows,
        done,
        n,
        j,
    ) && (forall|q: u32| #[trigger]
        key_page(m2, v.indexes[j].root_page, q) == key_page(m, v.indexes[j].root_page, q)) by {
        let r = if j < n {
            done
        } else {
            rows
        };
        assert(staged(m, v, rows, done, n, j));
        assert forall|q: u32| #[trigger] key_page(m, v.indexes[j].root_page, q) implies m2.contains_key(
            q,
        ) && m2[q] == m[q] by {
            assert(table_page(m, v, q));
        }
        index_kept(m, m2, v.columns, v.indexes[j], r);
    }
    assert forall|i: int, q: u32| 0 <= i < v.indexes.len() implies #[trigger] key_page(
        m2,
        v.indexes[i].root_page,
        q,
    ) == key_page(m, v.indexes[i].root_page, q) by {
        assert(staged(m2, v, rows, done, n, i));
    }
    assert forall|q: u32| #[trigger] table_page(m2, v, q) == table_page(m, v, q) by {
        if table_page(m2, v, q) && !row_page(m2, v.root_page, q) {
            let i = choose|i: int|
                0 <= i < v.indexes.len() && #[trigger] key_page(m2, v.indexes[i].root_page, q);
            assert(key_page(m, v.indexes[i].root_page, q));
        }
        if table_page(m, v, q) && !row_page(m, v.root_page, q) {
            let i = choose|i: int|
                0 <= i < v.indexes.len() && #[trigger] key_page(m, v.indexes[i].root_page, q);
            assert(key_page(m2, v.indexes[i].root_page, q));
        }
    }
    assert(trim(m2, v)) by {
        reveal(trim);
        if v.encrypted {
            assert forall|k: u64| (#[trigger] btree::cell_at(m2, v.root_page, k)) matches Some(
                c,
            ) implies btree::cell_trim(m2, btree::cell_at(m2, v.root_page, k)->0) by {
                let c = btree::cell_at(m, v.root_page, k)->0;
                assert(same_cell(m, m2, k, c));
            }
        }
    }
}

/// One change of a table after another.
pub proof fn only_table_then(
    m: Map<u32, Seq<u8>>,
    m1: Map<u32, Seq<u8>>,
    m2: Map<u32, Seq<u8>>,
    v: TableView,
    v1: TableView,
    v2: TableView,
)
    requires
        only_table(m, m1, v, v1),
        only_table(m1, m2, v1, v2),
    ensures
        only_table(m, m2, v, v2),
{
    reveal(only_table);
    assert forall|q: u32| #[trigger] m.contains_key(q) && !table_page(m, v, q) implies m2.contains_key(
        q,
    ) && m2[q] == m[q] by {
        assert(m1.contains_key(q) && m1[q] == m[q]);
        assert(!table_page(m1, v1, q));
    }
    assert forall|q: u32| #[trigger] table_page(m2, v2, q) implies table_page(m, v, q)
        || !m.contains_key(q) by {
        if m.contains_key(q) && !table_page(m, v, q) {
            assert(m1.contains_key(q));
            assert(!table_page(m1, v1, q));
        }
    }
    assert forall|q: u32| #[trigger]
        m.contains_key(q) && page::flags_of(m[q]) == page::PAGE_OVERFLOW implies m2.contains_key(q)
        && m2[q] == m[q] by {
        assert(m1.contains_key(q) && m1[q] == m[q]);
    }
}

/// Nothing changes.
pub proof fn only_table_none(m: Map<u32, Seq<u8>>, v: TableView)
    ensures
        only_table(m, m, v, v),
{
    reveal(only_table);
}

/// An index has room for the same keys.
pub open spec fn index_open(
    m: Map<u32, Seq<u8>>,
    m2: Map<u32, Seq<u8>>,
    v: TableView,
    v2: TableView,
    j: int,
) -> bool {
    &&& shallow(m2, v2, j) == shallow(m, v, j)
    &&& forall|key: Seq<u8>| #[trigger]
        open_for(m2, v2.indexes[j].root_page, key) == open_for(m, v.indexes[j].root_page, key)
}

/// All indexes but one have room for the same keys.
pub open spec fn indexes_open(
    m: Map<u32, Seq<u8>>,
    m2: Map<u32, Seq<u8>>,
    v: TableView,
    v2: TableView,
    i: int,
) -> bool {
    forall|j: int| 0 <= j < v.indexes.len() && j != i ==> #[trigger] index_open(m, m2, v, v2, j)
}

/// A change in the tree of rows alone leaves the indexes alone.
pub proof fn rows_rewritten(
    m: Map<u32, Seq<u8>>,
    m2: Map<u32, Seq<u8>>,
    v: TableView,
    v2: TableView,
    rows: Map<u64, Seq<u8>>,
    done: Map<u64, Seq<u8>>,
    n: int,
)
    requires
        stage(m, v, rows, done, n),
        v2 == (TableView { root_page: v2.root_page, ..v }),
        btree_writer::only_tree(m, m2, v.root_page, v2.root_page),
        rows_sound(m2, v2.root_page),
        v.encrypted ==> file::keeps_trim(m, m2) && cells_trim(m2, v2.root_page),
    ensures
        stage(m2, v2, rows, done, n),
        only_table(m, m2, v, v2),
        indexes_open(m, m2, v, v2, -1),
{
    reveal(apart);
    reveal(only_table);
    let root = v.root_page;
    let root2 = v2.root_page;
    row_pages_exist(m, root);
    row_pages_exist(m2, root2);
    overflow_stays(m, m2, root, root2);
    assert forall|j: int| 0 <= j < v2.indexes.len() implies #[trigger] staged(
        m2,
        v2,
        rows,
        done,
        n,
        j,
    ) && (forall|q: u32| #[trigger]
        key_page(m2, v2.indexes[j].root_page, q) == key_page(m, v.indexes[j].root_page, q)) && (
    forall|q: u32| #[trigger] key_page(m, v.indexes[j].root_page, q) ==> m.contains_key(q))
        && index_open(m, m2, v, v2, j) by {
        assert(staged(m, v, rows, done, n, j));
        let ix = v.indexes[j];
        reveal(index_matches);
        key_pages_exist(m, ix.root_page);
        assert forall|q: u32| #[trigger] key_page(m, ix.root_page, q) implies m2.contains_key(q)
            && m2[q] == m[q] by {
            assert(!row_page(m, root, q));
        }
        index_kept(
            m,
            m2,
            v.columns,
            ix,
            if j < n {
                done
            } else {
                rows
            },
        );
    }
    assert forall|j: int| 0 <= j < v.indexes.len() implies #[trigger] index_open(m, m2, v, v2, j) by {
        assert(staged(m2, v2, rows, done, n, j));
    }
    assert forall|i: int, q: u32| 0 <= i < v.indexes.len() implies (#[trigger] key_page(
        m2,
        v2.indexes[i].root_page,
        q,
    )) == key_page(m, v.indexes[i].root_page, q) by {
        assert(staged(m2, v2, rows, done, n, i));
    }
    assert forall|i: int, q: u32| 0 <= i < v2.indexes.len() implies !(#[trigger] key_page(
        m2,
        v2.indexes[i].root_page,
        q,
    ) && row_page(m2, root2, q)) by {
        assert(staged(m2, v2, rows, done, n, i));
        if key_page(m2, v2.indexes[i].root_page, q) && row_page(m2, root2, q) {
            assert(key_page(m, v.indexes[i].root_page, q));
            assert(tree::has(btree::view_of(m2), root2, q));
            assert(row_page(m, root, q) || !m.contains_key(q));
        }
    }
    assert(apart(m2, v2));
    assert forall|q: u32| #[trigger] m.contains_key(q) && !table_page(m, v, q) implies m2.contains_key(
        q,
    ) && m2[q] == m[q] by {
        assert(!row_page(m, root, q));
    }
    assert forall|q: u32| #[trigger] table_page(m2, v2, q) implies m2.contains_key(q) && (table_page(
        m,
        v,
        q,
    ) || !m.contains_key(q)) by {
        if row_page(m2, root2, q) {
            assert(tree::has(btree::view_of(m2), root2, q));
        } else {
            let i = choose|i: int|
                0 <= i < v2.indexes.len() && #[trigger] key_page(m2, v2.indexes[i].root_page, q);
            assert(key_page(m, v.indexes[i].root_page, q));
            assert(staged(m2, v2, rows, done, n, i));
            assert(!row_page(m, root, q));
        }
    }
    trim_step(m, m2, v, v2);
}

/// Pages that hold parts of rows stay when only nodes of a tree of rows change.
pub proof fn overflow_stays(m: Map<u32, Seq<u8>>, m2: Map<u32, Seq<u8>>, root: u32, root2: u32)
    requires
        btree::is_tree(m, root),
        btree_writer::only_tree(m, m2, root, root2),
    ensures
        btree_writer::overflow_kept(m, m2),
{
    row_pages_exist(m, root);
    assert forall|q: u32| #[trigger]
        m.contains_key(q) && page::flags_of(m[q]) == page::PAGE_OVERFLOW implies m2.contains_key(q)
        && m2[q] == m[q] by {
        assert(!row_page(m, root, q));
    }
}

/// One row comes into a tree of rows, or goes.
pub proof fn row_changed(
    m: Map<u32, Seq<u8>>,
    m2: Map<u32, Seq<u8>>,
    v: TableView,
    v2: TableView,
    k: u64,
    cell: Option<Seq<u8>>,
    rows: Map<u64, Seq<u8>>,
    done: Map<u64, Seq<u8>>,
    n: int,
)
    requires
        stage(m, v, rows, done, n),
        v2 == (TableView { root_page: v2.root_page, ..v }),
        btree_writer::tree_put(m, m2, v.root_page, v2.root_page, k, cell),
        cell matches Some(c) ==> good_cell(m2, k, c),
        v.encrypted ==> file::keeps_trim(m, m2),
        cell matches Some(c) ==> (v.encrypted ==> btree::cell_trim(m2, c)),
    ensures
        stage(m2, v2, rows, done, n),
        table_rows(m2, v2) == match cell {
            Some(c) => table_rows(m, v).insert(k, btree::expand(m2, c)->0),
            None => table_rows(m, v).remove(k),
        },
        only_table(m, m2, v, v2),
        indexes_open(m, m2, v, v2, -1),
{
    let root = v.root_page;
    let root2 = v2.root_page;
    overflow_stays(m, m2, root, root2);
    assert forall|k2: u64| #[trigger] good_at(m2, root2, k2) by {
        assert(good_at(m, root, k2));
        assert(btree::cell_at(m2, root2, k2) == if k2 == k {
            cell
        } else {
            btree::cell_at(m, root, k2)
        });
        if k2 != k && btree::cell_at(m, root, k2) is Some {
            good_cell_kept(m, m2, k2, btree::cell_at(m, root, k2)->0);
        }
    }
    if v.encrypted {
        cells_trim_step(m, m2, v, root2);
    }
    rows_rewritten(m, m2, v, v2, rows, done, n);
    let want = match cell {
        Some(c) => table_rows(m, v).insert(k, btree::expand(m2, c)->0),
        None => table_rows(m, v).remove(k),
    };
    let got = table_rows(m2, v2);
    assert forall|k2: u64| #[trigger] got.contains_key(k2) == want.contains_key(k2) && (
    got.contains_key(k2) ==> got[k2] == want[k2]) by {
        assert(good_at(m, root, k2));
        assert(btree::cell_at(m2, root2, k2) == if k2 == k {
            cell
        } else {
            btree::cell_at(m, root, k2)
        });
        if k2 != k && btree::cell_at(m, root, k2) is Some {
            good_cell_kept(m, m2, k2, btree::cell_at(m, root, k2)->0);
        }
    }
    assert(got =~= want);
}

/// A change in one index tree leaves the rows and the other indexes alone.
pub proof fn index_rewritten(
    m: Map<u32, Seq<u8>>,
    m2: Map<u32, Seq<u8>>,
    v: TableView,
    v2: TableView,
    i: int,
    key: Seq<u8>,
    present: Option<()>,
    rows: Map<u64, Seq<u8>>,
    done: Map<u64, Seq<u8>>,
    n: int,
)
    requires
        stage(m, v, rows, done, n),
        0 <= i < v.indexes.len(),
        v2 == (TableView { indexes: v2.indexes, ..v }),
        v2.indexes == v.indexes.update(i, v2.indexes[i]),
        index_tree::tree_put(
            m,
            m2,
            v.indexes[i].root_page,
            v2.indexes[i].root_page,
            key,
            present,
        ),
        v.encrypted ==> file::keeps_trim(m, m2),
    ensures
        trim(m2, v2),
        rows_sound(m2, v2.root_page),
        apart(m2, v2),
        forall|j: int|
            0 <= j < v2.indexes.len() && j != i ==> #[trigger] staged(m2, v2, rows, done, n, j),
        table_rows(m2, v2) == table_rows(m, v),
        btree::all_cells(m2, v2.root_page) == btree::all_cells(m, v.root_page),
        forall|k: u64| #[trigger]
            btree::cell_at(m2, v2.root_page, k) == btree::cell_at(m, v.root_page, k),
        tree::height(btree::view_of(m2), v2.root_page) == tree::height(
            btree::view_of(m),
            v.root_page,
        ),
        only_table(m, m2, v, v2),
        indexes_open(m, m2, v, v2, i),
{
    reveal(apart);
    reveal(only_table);
    let root = v.indexes[i].root_page;
    let root2 = v2.indexes[i].root_page;
    assert(staged(m, v, rows, done, n, i));
    assert(index_tree::is_index(m, root)) by {
        reveal(index_matches);
    }
    key_pages_exist(m, root);
    row_pages_exist(m, v.root_page);
    assert forall|q: u32| #[trigger]
        m.contains_key(q) && page::flags_of(m[q]) == page::PAGE_OVERFLOW implies m2.contains_key(q)
        && m2[q] == m[q] by {
        assert(!key_page(m, root, q));
    }
    assert(btree_writer::overflow_kept(m, m2));
    assert forall|q: u32| #[trigger] row_page(m, v.root_page, q) implies m2.contains_key(q)
        && m2[q] == m[q] by {
        assert(!key_page(m, root, q));
    }
    cells_lead_on(m, m2, v.root_page);
    rows_kept(m, m2, v.root_page);
    assert forall|j: int| 0 <= j < v2.indexes.len() implies (j != i ==> #[trigger] staged(
        m2,
        v2,
        rows,
        done,
        n,
        j,
    )) && (j != i ==> index_open(m, m2, v, v2, j)) && (j != i ==> forall|q: u32| #[trigger]
        key_page(m2, v2.indexes[j].root_page, q) == key_page(m, v.indexes[j].root_page, q)) && (
    forall|q: u32| #[trigger] key_page(m, v.indexes[j].root_page, q) ==> m.contains_key(q)) by {
        assert(staged(m, v, rows, done, n, j));
        if j != i {
            let ix = v.indexes[j];
            assert(v2.indexes[j] == ix);
            assert(index_tree::is_index(m, ix.root_page)) by {
                reveal(index_matches);
            }
            key_pages_exist(m, ix.root_page);
            assert forall|q: u32| #[trigger] key_page(m, ix.root_page, q) implies m2.contains_key(q)
                && m2[q] == m[q] by {
                if key_page(m, root, q) {
                    if i < j {
                        assert(!(key_page(m, v.indexes[i].root_page, q) && key_page(
                            m,
                            v.indexes[j].root_page,
                            q,
                        )));
                    } else {
                        assert(!(key_page(m, v.indexes[j].root_page, q) && key_page(
                            m,
                            v.indexes[i].root_page,
                            q,
                        )));
                    }
                }
            }
            index_kept(
                m,
                m2,
                v.columns,
                ix,
                if j < n {
                    done
                } else {
                    rows
                },
            );
        }
    }
    assert forall|j: int| 0 <= j < v.indexes.len() && j != i implies #[trigger] index_open(
        m,
        m2,
        v,
        v2,
        j,
    ) by {
        assert(staged(m2, v2, rows, done, n, j));
    }
    assert forall|j: int, q: u32| 0 <= j < v.indexes.len() && j != i implies (#[trigger] key_page(
        m2,
        v2.indexes[j].root_page,
        q,
    )) == key_page(m, v.indexes[j].root_page, q) by {
        assert(staged(m2, v2, rows, done, n, j));
    }
    assert forall|j: int, q: u32| 0 <= j < v2.indexes.len() implies !(#[trigger] key_page(
        m2,
        v2.indexes[j].root_page,
        q,
    ) && row_page(m2, v2.root_page, q)) by {
        if key_page(m2, v2.indexes[j].root_page, q) && row_page(m2, v2.root_page, q) {
            assert(row_page(m, v.root_page, q));
            if j == i {
                assert(tree::has(index_node::idx_view(m2), root2, q));
                assert(key_page(m, root, q) || !m.contains_key(q));
            } else {
                assert(key_page(m, v.indexes[j].root_page, q));
            }
        }
    }
    assert forall|a: int, b: int, q: u32| 0 <= a < b < v2.indexes.len() implies !(
    #[trigger] key_page(m2, v2.indexes[a].root_page, q) && #[trigger] key_page(
        m2,
        v2.indexes[b].root_page,
        q,
    )) by {
        if key_page(m2, v2.indexes[a].root_page, q) && key_page(m2, v2.indexes[b].root_page, q) {
            assert(a != i ==> staged(m2, v2, rows, done, n, a));
            assert(b != i ==> staged(m2, v2, rows, done, n, b));
            assert(tree::has(index_node::idx_view(m2), v2.indexes[a].root_page, q));
            assert(tree::has(index_node::idx_view(m2), v2.indexes[b].root_page, q));
            if a == i {
                assert(key_page(m, v.indexes[b].root_page, q));
                assert(m.contains_key(q));
                assert(key_page(m, v.indexes[a].root_page, q));
            } else if b == i {
                assert(key_page(m, v.indexes[a].root_page, q));
                assert(m.contains_key(q));
                assert(key_page(m, v.indexes[b].root_page, q));
            } else {
                assert(key_page(m, v.indexes[a].root_page, q));
                assert(key_page(m, v.indexes[b].root_page, q));
            }
        }
    }
    assert(apart(m2, v2));
    assert forall|q: u32| #[trigger] m.contains_key(q) && !table_page(m, v, q) implies m2.contains_key(
        q,
    ) && m2[q] == m[q] by {
        assert(!key_page(m, root, q));
    }
    row_pages_exist(m2, v2.root_page);
    key_pages_exist(m2, root2);
    assert forall|q: u32| #[trigger] table_page(m2, v2, q) implies m2.contains_key(q) && (table_page(
        m,
        v,
        q,
    ) || !m.contains_key(q)) by {
        if !row_page(m2, v2.root_page, q) {
            let j = choose|j: int|
                0 <= j < v2.indexes.len() && #[trigger] key_page(m2, v2.indexes[j].root_page, q);
            if j == i {
                assert(tree::has(index_node::idx_view(m2), root2, q));
                assert(key_page(m, v.indexes[i].root_page, q) || !m.contains_key(q));
            } else {
                assert(key_page(m, v.indexes[j].root_page, q));
                if key_page(m, root, q) {
                    if i < j {
                        assert(!(key_page(m, v.indexes[i].root_page, q) && key_page(
                            m,
                            v.indexes[j].root_page,
                            q,
                        )));
                    } else {
                        assert(!(key_page(m, v.indexes[j].root_page, q) && key_page(
                            m,
                            v.indexes[i].root_page,
                            q,
                        )));
                    }
                }
                assert(staged(m2, v2, rows, done, n, j));
                assert(m.contains_key(q));
            }
        } else {
            assert(row_page(m, v.root_page, q));
        }
    }
    if v.encrypted {
        assert(btree_writer::overflow_kept(m, m2));
        cells_trim_step(m, m2, v, v2.root_page);
    }
    trim_step(m, m2, v, v2);
}

/// A change in one index tree brings that index in step.
pub proof fn key_changed(
    m: Map<u32, Seq<u8>>,
    m2: Map<u32, Seq<u8>>,
    v: TableView,
    v2: TableView,
    i: int,
    key: Seq<u8>,
    present: Option<()>,
    rows: Map<u64, Seq<u8>>,
    done: Map<u64, Seq<u8>>,
)
    requires
        stage(m, v, rows, done, i),
        0 <= i < v.indexes.len(),
        v2 == (TableView { indexes: v2.indexes, ..v }),
        v2.indexes == v.indexes.update(i, v2.indexes[i]),
        index_tree::tree_put(
            m,
            m2,
            v.indexes[i].root_page,
            v2.indexes[i].root_page,
            key,
            present,
        ),
        index_matches(m2, v2.columns, v2.indexes[i], done),
        v.encrypted ==> file::keeps_trim(m, m2),
    ensures
        stage(m2, v2, rows, done, i + 1),
        table_rows(m2, v2) == table_rows(m, v),
        btree::all_cells(m2, v2.root_page) == btree::all_cells(m, v.root_page),
        only_table(m, m2, v, v2),
        indexes_open(m, m2, v, v2, i),
        tree::height(btree::view_of(m2), v2.root_page) == tree::height(
            btree::view_of(m),
            v.root_page,
        ),
{
    index_rewritten(m, m2, v, v2, i, key, present, rows, done, i);
    assert forall|j: int| 0 <= j < v2.indexes.len() implies #[trigger] staged(
        m2,
        v2,
        rows,
        done,
        i + 1,
        j,
    ) by {
        if j != i {
            assert(staged(m2, v2, rows, done, i, j));
        }
    }
}

/// An index that lists nothing of a row lists the same without it.
pub proof fn listing_same(
    m: Map<u32, Seq<u8>>,
    columns: Seq<ColumnView>,
    ix: IndexView,
    k: u64,
    bytes: Seq<u8>,
    rows: Map<u64, Seq<u8>>,
    done: Map<u64, Seq<u8>>,
)
    requires
        index_matches(m, columns, ix, rows),
        entry_of(columns, ix, bytes, k) == Some(None::<Seq<u8>>),
        added_or_removed(rows, done, k, bytes),
    ensures
        index_matches(m, columns, ix, done),
{
    reveal(index_matches);
    assert forall|key: Seq<u8>| #[trigger] listed(columns, ix, rows, key) == listed(
        columns,
        ix,
        done,
        key,
    ) by {
        if listed(columns, ix, rows, key) {
            let k2 = choose|k2: u64|
                rows.contains_key(k2) && (#[trigger] entry_of(columns, ix, rows[k2], k2)) == Some(
                    Some(key),
                );
            assert(entry_of(columns, ix, done[k2], k2) == Some(Some(key)));
        }
        if listed(columns, ix, done, key) {
            let k2 = choose|k2: u64|
                done.contains_key(k2) && (#[trigger] entry_of(columns, ix, done[k2], k2)) == Some(
                    Some(key),
                );
            assert(entry_of(columns, ix, rows[k2], k2) == Some(Some(key)));
        }
    }
    assert forall|key: Seq<u8>|
        (#[trigger] index_tree::key_at(m, ix.root_page, key)) is Some <==> listed(
            columns,
            ix,
            done,
            key,
        ) by {
        assert(listed(columns, ix, rows, key) == listed(columns, ix, done, key));
    }
}

/// An index that lists nothing of a row is in step with or without it.
pub proof fn index_unchanged(
    m: Map<u32, Seq<u8>>,
    v: TableView,
    i: int,
    k: u64,
    bytes: Seq<u8>,
    rows: Map<u64, Seq<u8>>,
    done: Map<u64, Seq<u8>>,
)
    requires
        stage(m, v, rows, done, i),
        0 <= i < v.indexes.len(),
        entry_of(v.columns, v.indexes[i], bytes, k) == Some(None::<Seq<u8>>),
        added_or_removed(rows, done, k, bytes),
    ensures
        stage(m, v, rows, done, i + 1),
{
    assert(staged(m, v, rows, done, i, i));
    listing_same(m, v.columns, v.indexes[i], k, bytes, rows, done);
    assert forall|j: int| 0 <= j < v.indexes.len() implies #[trigger] staged(
        m,
        v,
        rows,
        done,
        i + 1,
        j,
    ) by {
        assert(staged(m, v, rows, done, i, j));
    }
}

/// The second map has one row more, or one row less, than the first.
pub open spec fn added_or_removed(
    rows: Map<u64, Seq<u8>>,
    done: Map<u64, Seq<u8>>,
    k: u64,
    bytes: Seq<u8>,
) -> bool {
    ||| !rows.contains_key(k) && done == rows.insert(k, bytes)
    ||| rows.contains_key(k) && rows[k] == bytes && done == rows.remove(k)
}

/// A key names its row.
pub proof fn entry_names_row(
    columns: Seq<ColumnView>,
    ix: IndexView,
    b1: Seq<u8>,
    k1: u64,
    b2: Seq<u8>,
    k2: u64,
    key: Seq<u8>,
)
    requires
        entry_of(columns, ix, b1, k1) == Some(Some(key)),
        entry_of(columns, ix, b2, k2) == Some(Some(key)),
    ensures
        k1 == k2,
        key.len() >= 9,
{
    let column = table::leading(ix);
    let c = table::column_id(columns, column)->0;
    let t = table::column_type(columns, column)->0;
    let v1 = match row::column_of(b1, c) {
        Some(Some(x)) => x,
        _ => ValueView::Null,
    };
    let v2 = match row::column_of(b2, c) {
        Some(Some(x)) => x,
        _ => ValueView::Null,
    };
    index::rowid_round_trip(t, v1, k1);
    index::rowid_round_trip(t, v2, k2);
}

/// What an index lists once a key has come or gone.
pub proof fn listing_changed(
    m: Map<u32, Seq<u8>>,
    m2: Map<u32, Seq<u8>>,
    columns: Seq<ColumnView>,
    ix: IndexView,
    ix2: IndexView,
    key: Seq<u8>,
    k: u64,
    bytes: Seq<u8>,
    rows: Map<u64, Seq<u8>>,
    done: Map<u64, Seq<u8>>,
)
    requires
        index_matches(m, columns, ix, rows),
        ix2 == (IndexView { root_page: ix2.root_page, ..ix }),
        entry_of(columns, ix, bytes, k) == Some(Some(key)),
        added_or_removed(rows, done, k, bytes),
        index_tree::tree_put(
            m,
            m2,
            ix.root_page,
            ix2.root_page,
            key,
            if done.contains_key(k) {
                Some(())
            } else {
                None
            },
        ),
    ensures
        index_matches(m2, columns, ix2, done),
{
    reveal(index_matches);
    assert forall|key2: Seq<u8>|
        (#[trigger] index_tree::key_at(m2, ix2.root_page, key2)) is Some <==> listed(
            columns,
            ix2,
            done,
            key2,
        ) by {
        let before = index_tree::key_at(m, ix.root_page, key2);
        assert(before is Some <==> listed(columns, ix, rows, key2));
        if listed(columns, ix, rows, key2) {
            let k2 = choose|k2: u64|
                rows.contains_key(k2) && (#[trigger] entry_of(columns, ix, rows[k2], k2)) == Some(
                    Some(key2),
                );
            if key2 != key {
                assert(k2 != k || rows[k2] != bytes);
                assert(done.contains_key(k2) && done[k2] == rows[k2]);
                assert(entry_of(columns, ix2, done[k2], k2) == Some(Some(key2)));
            }
        }
        if listed(columns, ix2, done, key2) {
            let k2 = choose|k2: u64|
                done.contains_key(k2) && (#[trigger] entry_of(columns, ix2, done[k2], k2)) == Some(
                    Some(key2),
                );
            assert(entry_of(columns, ix, done[k2], k2) == Some(Some(key2)));
            if key2 == key {
                entry_names_row(columns, ix, done[k2], k2, bytes, k, key);
            } else {
                if k2 == k {
                    assert(done[k2] == bytes);
                }
                assert(rows.contains_key(k2) && rows[k2] == done[k2]);
                assert(entry_of(columns, ix, rows[k2], k2) == Some(Some(key2)));
            }
        }
        if key2 == key && done.contains_key(k) {
            assert(entry_of(columns, ix2, done[k], k) == Some(Some(key)));
        }
    }
}

/// A key that no row has yet is not in the index.
pub proof fn key_is_new(
    m: Map<u32, Seq<u8>>,
    columns: Seq<ColumnView>,
    ix: IndexView,
    key: Seq<u8>,
    k: u64,
    bytes: Seq<u8>,
    rows: Map<u64, Seq<u8>>,
)
    requires
        index_matches(m, columns, ix, rows),
        entry_of(columns, ix, bytes, k) == Some(Some(key)),
    ensures
        index_tree::is_index(m, ix.root_page),
        !rows.contains_key(k) ==> index_tree::key_at(m, ix.root_page, key) is None,
        rows.contains_key(k) && rows[k] == bytes ==> index_tree::key_at(m, ix.root_page, key)
            is Some,
{
    reveal(index_matches);
    if index_tree::key_at(m, ix.root_page, key) is Some {
        assert(listed(columns, ix, rows, key));
        let k2 = choose|k2: u64|
            rows.contains_key(k2) && (#[trigger] entry_of(columns, ix, rows[k2], k2)) == Some(
                Some(key),
            );
        entry_names_row(columns, ix, rows[k2], k2, bytes, k, key);
    }
    if rows.contains_key(k) && rows[k] == bytes {
        assert(entry_of(columns, ix, rows[k], k) == Some(Some(key)));
        assert(listed(columns, ix, rows, key));
    }
}

/// Work on a guard that publishes nothing, and leaves pages that are to be encrypted
/// trimmed.
pub open spec fn unpublished(g: WriteGuard, g2: WriteGuard, encrypted: bool) -> bool {
    &&& g2.wf()
    &&& g2.total() >= g.total()
    &&& g2.inner().contents() == g.inner().contents()
    &&& file::grounded(g.inner(), g2.inner())
    &&& g2.inner().count() == g.inner().count()
    &&& encrypted ==> file::keeps_trim(g.pages(), g2.pages())
}

/// The rows that the indexes list before and after a row goes or comes.
pub open spec fn row_step(
    rows: Map<u64, Seq<u8>>,
    done: Map<u64, Seq<u8>>,
    k: u64,
    bytes: Seq<u8>,
    remove: bool,
) -> bool {
    if remove {
        rows.contains_key(k) && rows[k] == bytes && done == rows.remove(k)
    } else {
        !rows.contains_key(k) && done == rows.insert(k, bytes)
    }
}

/// The table is at the stage, and its rows and all pages that are not its own
/// are as before.
pub open spec fn restaged(
    m: Map<u32, Seq<u8>>,
    m2: Map<u32, Seq<u8>>,
    v: TableView,
    v2: TableView,
    rows: Map<u64, Seq<u8>>,
    done: Map<u64, Seq<u8>>,
    n: int,
) -> bool {
    &&& stage(m2, v2, rows, done, n)
    &&& table_rows(m2, v2) == table_rows(m, v)
    &&& btree::all_cells(m2, v2.root_page) == btree::all_cells(m, v.root_page)
    &&& tree::height(btree::view_of(m2), v2.root_page) == tree::height(
        btree::view_of(m),
        v.root_page,
    )
    &&& only_table(m, m2, v, v2)
}

/// The error of a tree that has no room, is damaged, or is too deep.
pub open spec fn tree_error(e: BoogyError) -> bool {
    e is PageFull || e is Corruption || e is Io
}

proof fn indexes_stay_open(
    m: Map<u32, Seq<u8>>,
    m2: Map<u32, Seq<u8>>,
    v: TableView,
    v2: TableView,
    i: int,
    bytes: Seq<u8>,
    k: u64,
)
    requires
        rerooted(v, v2),
        indexes_open(m, m2, v, v2, i),
    ensures
        forall|j: int|
            0 <= j < v.indexes.len() && j != i ==> #[trigger] shallow(m2, v2, j) == shallow(m, v, j),
        forall|j: int|
            0 <= j < v.indexes.len() && j != i ==> #[trigger] can_list(m2, v2, j, bytes, k)
                == can_list(m, v, j, bytes, k),
{
    assert forall|j: int| 0 <= j < v.indexes.len() && j != i implies #[trigger] shallow(m2, v2, j)
        == shallow(m, v, j) by {
        assert(index_open(m, m2, v, v2, j));
    }
    assert forall|j: int| 0 <= j < v.indexes.len() && j != i implies #[trigger] can_list(
        m2,
        v2,
        j,
        bytes,
        k,
    ) == can_list(m, v, j, bytes, k) by {
        assert(index_open(m, m2, v, v2, j));
        assert(entry_of(v2.columns, v2.indexes[j], bytes, k) == entry_of(
            v.columns,
            v.indexes[j],
            bytes,
            k,
        ));
    }
}

/// What is wrong with what an index is to list of a row: it cannot be read, or is too
/// long.
pub open spec fn entry_fault(e: Option<Option<Seq<u8>>>, err: BoogyError) -> bool {
    &&& !short_entry(e)
    &&& match e {
        None => err is Corruption,
        Some(_) => err is PageFull,
    }
}

/// The error on a row that the indexes cannot list: it is about the first index that
/// cannot.
pub open spec fn unlistable(v: TableView, bytes: Seq<u8>, k: u64, err: BoogyError) -> bool {
    exists|j: int|
        0 <= j < v.indexes.len() && #[trigger] entry_fault(
            entry_of(v.columns, v.indexes[j], bytes, k),
            err,
        ) && forall|i: int|
            0 <= i < j ==> short_entry(#[trigger] entry_of(v.columns, v.indexes[i], bytes, k))
}

/// A row that an error is about cannot be listed.
pub proof fn unlistable_not(v: TableView, bytes: Seq<u8>, k: u64, err: BoogyError)
    requires
        unlistable(v, bytes, k, err),
    ensures
        !indexable(v, bytes, k),
        err is Corruption || err is PageFull,
{
}

/// Checks what an index on a column lists of a row.
pub(crate) fn check_entry(
    bytes: &[u8],
    col_id: Option<u16>,
    col_type: Option<Type>,
    rowid: u64,
    Ghost(columns): Ghost<Seq<ColumnView>>,
    Ghost(ix): Ghost<IndexView>,
) -> (r: Result<()>)
    requires
        table::column_id(columns, table::leading(ix)) == col_id,
        table::column_type(columns, table::leading(ix)) == col_type,
    ensures
        match r {
            Ok(_) => short_entry(entry_of(columns, ix, bytes@, rowid)),
            Err(e) => entry_fault(entry_of(columns, ix, bytes@, rowid), e),
        },
{
    match (col_id, col_type) {
        (Some(cid), Some(ct)) => {
            let value: Value = match extract_column(bytes, cid)? {
                Some(x) => x,
                None => Value::Null,
            };
            match encode_index_key(ct, &value, rowid) {
                Some(key) => {
                    if key.len() > index_node::MAX_INDEX_KEY {
                        return Err(BoogyError::PageFull);
                    }
                },
                None => {},
            }
        },
        _ => {},
    }
    Ok(())
}

/// Checks that the indexes of a table can list a row.
pub fn check_entries(meta: &TableMeta, rowid: u64, bytes: &[u8]) -> (r: Result<()>)
    ensures
        match r {
            Ok(_) => indexable(meta@, bytes@, rowid),
            Err(e) => !indexable(meta@, bytes@, rowid) && unlistable(meta@, bytes@, rowid, e),
        },
{
    let ghost v = meta@;
    let n: usize = meta.indexes.len();
    let mut i: usize = 0;
    while i < n
        invariant
            i <= n,
            n == meta.indexes@.len() == v.indexes.len(),
            v == meta@,
            forall|j: int|
                0 <= j < i ==> short_entry(#[trigger] entry_of(v.columns, v.indexes[j], bytes@, rowid)),
        decreases n - i,
    {
        let column = meta.indexes[i].leading_column();
        let ghost ix = v.indexes[i as int];
        assert(ix == meta.indexes@[i as int]@);
        match check_entry(
            bytes,
            meta.col_id(column.as_str()),
            meta.col_type(column.as_str()),
            rowid,
            Ghost(v.columns),
            Ghost(ix),
        ) {
            Ok(_) => {},
            Err(e) => {
                assert(entry_fault(entry_of(v.columns, v.indexes[i as int], bytes@, rowid), e));
                return Err(e);
            },
        }
        i += 1;
    }
    Ok(())
}

fn update_index(
    guard: &mut WriteGuard,
    meta: &mut TableMeta,
    i: usize,
    rowid: u64,
    row_bytes: &[u8],
    remove: bool,
    Ghost(rows): Ghost<Map<u64, Seq<u8>>>,
    Ghost(done): Ghost<Map<u64, Seq<u8>>>,
) -> (r: Result<()>)
    requires
        old(guard).wf(),
        i < old(meta)@.indexes.len(),
    ensures
        r is Ok && file::tidy(old(guard).pages()) ==> file::tidy(final(guard).pages()),
        unpublished(*old(guard), *final(guard), old(meta)@.encrypted),
        remove ==> final(guard).total() == old(guard).total(),
        rerooted(old(meta)@, final(meta)@),
        final(meta)@.root_page == old(meta)@.root_page,
        stage(old(guard).pages(), old(meta)@, rows, done, i as int) && short_entry(
            entry_of(
                old(meta)@.columns,
                old(meta)@.indexes[i as int],
                row_bytes@,
                rowid,
            ),
        ) && row_step(rows, done, rowid, row_bytes@, remove) ==> (r is Ok ==> restaged(
            old(guard).pages(),
            final(guard).pages(),
            old(meta)@,
            final(meta)@,
            rows,
            done,
            i + 1,
        )) && (r matches Err(e) ==> tree_error(e)) && (r is Ok ==> indexes_open(
            old(guard).pages(),
            final(guard).pages(),
            old(meta)@,
            final(meta)@,
            i as int,
        )) && (remove && shallow(old(guard).pages(), old(meta)@, i as int) ==> r is Ok && shallow(
            final(guard).pages(),
            final(meta)@,
            i as int,
        )) && (!remove && can_list(
            old(guard).pages(),
            old(meta)@,
            i as int,
            row_bytes@,
            rowid,
        ) && old(guard).total() + 66 <= u32::MAX ==> r is Ok && final(guard).total() <= old(
            guard,
        ).total() + 66),
{
    let ghost m = guard.pages();
    let ghost v = meta@;
    let ghost ix = v.indexes[i as int];
    let ghost ok = stage(m, v, rows, done, i as int) && short_entry(
        entry_of(v.columns, ix, row_bytes@, rowid),
    ) && row_step(rows, done, rowid, row_bytes@, remove);
    proof {
        only_table_none(m, v);
    }
    let column = meta.indexes[i].leading_column();
    assert(ix == meta.indexes@[i as int]@);
    let col_id = meta.col_id(column.as_str());
    let col_type = meta.col_type(column.as_str());
    match (col_id, col_type) {
        (Some(cid), Some(ct)) => {
            let value: Value = match extract_column(row_bytes, cid)? {
                Some(x) => x,
                None => Value::Null,
            };
            match encode_index_key(ct, &value, rowid) {
                Some(key) => {
                    proof {
                        if ok {
                            assert(staged(m, v, rows, done, i as int, i as int));
                            assert(entry_of(v.columns, ix, row_bytes@, rowid) == Some(Some(key@)));
                            key_is_new(m, v.columns, ix, key@, rowid, row_bytes@, rows);
                            not_loose(
                                m,
                                v,
                                i as int,
                                if v.encrypted {
                                    4068
                                } else {
                                    4092
                                },
                            );
                        }
                    }
                    let mut index_meta = meta.indexes[i].clone();
                    guard.set_sealed(meta.encrypted);
                    let mut tree = IndexTreeWriter::new(index_meta.root_page);
                    if remove {
                        tree.delete(guard, key.as_slice())?;
                    } else {
                        tree.insert(guard, key.as_slice())?;
                    }
                    index_meta.root_page = tree.root_page();
                    meta.indexes.set(i, index_meta);
                    proof {
                        let ix2 = index_meta@;
                        assert(meta@.indexes =~= v.indexes.update(i as int, ix2));
                        assert(rerooted(v, meta@));
                        if ok {
                            listing_changed(
                                m,
                                guard.pages(),
                                v.columns,
                                ix,
                                ix2,
                                key@,
                                rowid,
                                row_bytes@,
                                rows,
                                done,
                            );
                            key_changed(
                                m,
                                guard.pages(),
                                v,
                                meta@,
                                i as int,
                                key@,
                                if done.contains_key(rowid) {
                                    Some(())
                                } else {
                                    None
                                },
                                rows,
                                done,
                            );
                        }
                    }
                },
                None => {
                    proof {
                        if ok {
                            index_unchanged(m, v, i as int, rowid, row_bytes@, rows, done);
                        }
                    }
                },
            }
        },
        _ => {
            proof {
                if ok {
                    index_unchanged(m, v, i as int, rowid, row_bytes@, rows, done);
                }
            }
        },
    }
    Ok(())
}

/// Update all indexes for a row using its encoded bytes: the entries of the row
/// go if `remove` is set, else they come.
pub(crate) fn index_update_row(
    guard: &mut WriteGuard,
    meta: &mut TableMeta,
    rowid: u64,
    row_bytes: &[u8],
    remove: bool,
    Ghost(rows): Ghost<Map<u64, Seq<u8>>>,
    Ghost(done): Ghost<Map<u64, Seq<u8>>>,
) -> (r: Result<()>)
    requires
        old(guard).wf(),
    ensures
        r is Ok && file::tidy(old(guard).pages()) ==> file::tidy(final(guard).pages()),
        unpublished(*old(guard), *final(guard), old(meta)@.encrypted),
        remove ==> final(guard).total() == old(guard).total(),
        rerooted(old(meta)@, final(meta)@),
        final(meta)@.root_page == old(meta)@.root_page,
        old(meta)@.indexes.len() == 0 ==> r is Ok && *final(guard) == *old(guard),
        stage(old(guard).pages(), old(meta)@, rows, done, 0) && indexable(
            old(meta)@,
            row_bytes@,
            rowid,
        ) && row_step(rows, done, rowid, row_bytes@, remove) ==> (r is Ok ==> restaged(
            old(guard).pages(),
            final(guard).pages(),
            old(meta)@,
            final(meta)@,
            done,
            done,
            0,
        )) && (r matches Err(e) ==> tree_error(e)) && (remove && (forall|j: int|
            0 <= j < old(meta)@.indexes.len() ==> #[trigger] shallow(
                old(guard).pages(),
                old(meta)@,
                j,
            )) ==> r is Ok && forall|j: int|
            0 <= j < final(meta)@.indexes.len() ==> #[trigger] shallow(
                final(guard).pages(),
                final(meta)@,
                j,
            )) && (!remove && (forall|j: int|
            0 <= j < old(meta)@.indexes.len() ==> #[trigger] can_list(
                old(guard).pages(),
                old(meta)@,
                j,
                row_bytes@,
                rowid,
            )) && old(guard).total() + 66 * old(meta)@.indexes.len() <= u32::MAX ==> r is Ok
            && final(guard).total() <= old(guard).total() + 66 * old(meta)@.indexes.len()),
{
    let ghost m = guard.pages();
    let ghost v = meta@;
    let ghost flat = remove && forall|j: int|
        0 <= j < v.indexes.len() ==> #[trigger] shallow(m, v, j);
    let ghost roomy = !remove && (forall|j: int|
        0 <= j < v.indexes.len() ==> #[trigger] can_list(m, v, j, row_bytes@, rowid)) && guard.total()
        + 66 * v.indexes.len() <= u32::MAX;
    let ghost ok = stage(m, v, rows, done, 0) && indexable(v, row_bytes@, rowid) && row_step(
        rows,
        done,
        rowid,
        row_bytes@,
        remove,
    );
    let n: usize = meta.indexes.len();
    let mut i: usize = 0;
    proof {
        only_table_none(m, v);
    }
    while i < n
        invariant
            i <= n,
            n == v.indexes.len(),
            m == old(guard).pages(),
            v == old(meta)@,
            unpublished(*old(guard), *guard, old(meta)@.encrypted),
            file::tidy(old(guard).pages()) ==> file::tidy(guard.pages()),
            i == 0 ==> *guard == *old(guard),
            remove ==> guard.total() == old(guard).total(),
            rerooted(v, meta@),
            meta@.root_page == v.root_page,
            ok ==> indexable(v, row_bytes@, rowid) && row_step(
                rows,
                done,
                rowid,
                row_bytes@,
                remove,
            ),
            ok ==> restaged(m, guard.pages(), v, meta@, rows, done, i as int),
            flat ==> remove,
            roomy ==> !remove,
            flat == (remove && forall|j: int|
                0 <= j < v.indexes.len() ==> #[trigger] shallow(m, v, j)),
            roomy == (!remove && (forall|j: int|
                0 <= j < v.indexes.len() ==> #[trigger] can_list(m, v, j, row_bytes@, rowid))
                && old(guard).total() + 66 * v.indexes.len() <= u32::MAX),
            ok && flat ==> forall|j: int|
                0 <= j < v.indexes.len() ==> #[trigger] shallow(guard.pages(), meta@, j),
            ok && roomy ==> guard.total() <= old(guard).total() + 66 * i && forall|j: int|
                i <= j < v.indexes.len() ==> #[trigger] can_list(
                    guard.pages(),
                    meta@,
                    j,
                    row_bytes@,
                    rowid,
                ),
            ok == (stage(m, v, rows, done, 0) && indexable(v, row_bytes@, rowid) && row_step(
                rows,
                done,
                rowid,
                row_bytes@,
                remove,
            )),
        decreases n - i,
    {
        let ghost m1 = guard.pages();
        let ghost v1 = meta@;
        assert(v1.indexes[i as int] == (IndexView {
            root_page: v1.indexes[i as int].root_page,
            ..v.indexes[i as int]
        }));
        assert(entry_of(v1.columns, v1.indexes[i as int], row_bytes@, rowid) == entry_of(
            v.columns,
            v.indexes[i as int],
            row_bytes@,
            rowid,
        ));
        proof {
            if ok && flat {
                assert(shallow(m1, v1, i as int));
            }
            if ok && roomy {
                assert(can_list(m1, v1, i as int, row_bytes@, rowid));
            }
        }
        update_index(guard, meta, i, rowid, row_bytes, remove, Ghost(rows), Ghost(done))?;
        proof {
            if ok {
                only_table_then(m, m1, guard.pages(), v, v1, meta@);
                indexes_stay_open(m1, guard.pages(), v1, meta@, i as int, row_bytes@, rowid);
            }
        }
        i += 1;
    }
    proof {
        if ok {
            let m2 = guard.pages();
            let v2 = meta@;
            assert forall|j: int| 0 <= j < v2.indexes.len() implies #[trigger] staged(
                m2,
                v2,
                done,
                done,
                0,
                j,
            ) by {
                assert(staged(m2, v2, rows, done, n as int, j));
            }
        }
    }
    Ok(())
}

/// What is listed of a row does not depend on the roots of the trees.
pub proof fn rerooted_indexable(v: TableView, v2: TableView, bytes: Seq<u8>, k: u64)
    requires
        rerooted(v, v2),
    ensures
        indexable(v2, bytes, k) == indexable(v, bytes, k),
{
    assert forall|i: int| 0 <= i < v.indexes.len() implies #[trigger] entry_of(
        v2.columns,
        v2.indexes[i],
        bytes,
        k,
    ) == entry_of(v.columns, v.indexes[i], bytes, k) by {}
    if indexable(v, bytes, k) {
        assert forall|i: int| 0 <= i < v2.indexes.len() implies short_entry(
            #[trigger] entry_of(v2.columns, v2.indexes[i], bytes, k),
        ) by {
            assert(short_entry(entry_of(v.columns, v.indexes[i], bytes, k)));
        }
    }
    if indexable(v2, bytes, k) {
        assert forall|i: int| 0 <= i < v.indexes.len() implies short_entry(
            #[trigger] entry_of(v.columns, v.indexes[i], bytes, k),
        ) by {
            assert(short_entry(entry_of(v2.columns, v2.indexes[i], bytes, k)));
        }
    }
}

/// Before the first index is done, what the others are to list does not matter.
pub proof fn stage_start(
    m: Map<u32, Seq<u8>>,
    v: TableView,
    rows: Map<u64, Seq<u8>>,
    done: Map<u64, Seq<u8>>,
    done2: Map<u64, Seq<u8>>,
)
    requires
        stage(m, v, rows, done, 0),
    ensures
        stage(m, v, rows, done2, 0),
{
    assert forall|j: int| 0 <= j < v.indexes.len() implies #[trigger] staged(
        m,
        v,
        rows,
        done2,
        0,
        j,
    ) by {
        assert(staged(m, v, rows, done, 0, j));
    }
}

proof fn all_indexable_step(
    v: TableView,
    v2: TableView,
    rows: Map<u64, Seq<u8>>,
    done: Map<u64, Seq<u8>>,
    k: u64,
)
    requires
        all_indexable(v, rows),
        rerooted(v, v2),
        forall|k2: u64| #[trigger]
            done.contains_key(k2) && k2 != k ==> rows.contains_key(k2) && rows[k2] == done[k2],
        done.contains_key(k) ==> indexable(v, done[k], k),
    ensures
        all_indexable(v2, done),
{
    assert forall|k2: u64| #[trigger] done.contains_key(k2) implies indexable(v2, done[k2], k2) by {
        rerooted_indexable(v, v2, done[k2], k2);
        if k2 != k {
            assert(rows.contains_key(k2));
        }
    }
}

/// What comes of storing a new row.
pub open spec fn insert_outcome(
    m: Map<u32, Seq<u8>>,
    m2: Map<u32, Seq<u8>>,
    v: TableView,
    v2: TableView,
    k: u64,
    bytes: Seq<u8>,
    total: int,
    r: Result<()>,
) -> bool {
    let rows = table_rows(m, v);
    let t = btree::view_of(m);
    let h = tree::height(t, v.root_page);
    match r {
        Ok(_) => {
            &&& !rows.contains_key(k)
            &&& readable(bytes) && indexable(v, bytes, k) ==> {
                &&& table_ok(m2, v2)
                &&& table_rows(m2, v2) == rows.insert(k, bytes)
                &&& only_table(m, m2, v, v2)
            }
        },
        Err(BoogyError::DuplicateKey(id)) => {
            &&& id == k
            &&& rows.contains_key(k)
            &&& m2 == m
            &&& v2 == v
        },
        Err(BoogyError::PageFull) => {
            &&& !rows.contains_key(k)
            &&& v.indexes.len() > 0
        },
        Err(BoogyError::Corruption(_)) => v.indexes.len() == 0 ==> {
            ||| h >= btree::MAX_TREE_DEPTH
            ||| total + h + 2 + btree_writer::pages_for(bytes.len() as int) > u32::MAX
        },
        Err(BoogyError::Io(_)) => v.indexes.len() > 0,
        Err(_) => false,
    }
}

/// Storing a new row cannot fail.
pub open spec fn insert_owed(m: Map<u32, Seq<u8>>, v: TableView, k: u64, bytes: Seq<u8>, total: int) -> bool {
    &&& !table_rows(m, v).contains_key(k)
    &&& enough_pages(v, total, bytes.len() as int)
}

/// Stores a new row: into the tree of rows, and its entries into the indexes.
pub fn insert_row(guard: &mut WriteGuard, meta: &mut TableMeta, rowid: u64, row_bytes: &[u8]) -> (r:
    Result<()>)
    requires
        old(guard).wf(),
        8 <= row_bytes@.len() <= u32::MAX,
        btree_node::id_of(row_bytes@) == rowid,
    ensures
        r is Ok && file::tidy(old(guard).pages()) ==> file::tidy(final(guard).pages()),
        unpublished(*old(guard), *final(guard), old(meta)@.encrypted),
        table_ok(old(guard).pages(), old(meta)@) && readable(row_bytes@) && indexable(
            old(meta)@,
            row_bytes@,
            rowid,
        ) && insert_owed(
            old(guard).pages(),
            old(meta)@,
            rowid,
            row_bytes@,
            old(guard).total(),
        ) ==> final(guard).total() <= old(guard).total() + most_pages(
            old(meta)@,
            row_bytes@.len() as int,
        ),
        rerooted(old(meta)@, final(meta)@),
        table_ok(old(guard).pages(), old(meta)@) && (readable(row_bytes@) && indexable(
            old(meta)@,
            row_bytes@,
            rowid,
        ) || old(meta)@.indexes.len() == 0) ==> insert_outcome(
            old(guard).pages(),
            final(guard).pages(),
            old(meta)@,
            final(meta)@,
            rowid,
            row_bytes@,
            old(guard).total(),
            r,
        ),
        table_ok(old(guard).pages(), old(meta)@) && readable(row_bytes@) && indexable(
            old(meta)@,
            row_bytes@,
            rowid,
        ) && insert_owed(
            old(guard).pages(),
            old(meta)@,
            rowid,
            row_bytes@,
            old(guard).total(),
        ) ==> r is Ok,
        table_ok(old(guard).pages(), old(meta)@) && table_rows(
            old(guard).pages(),
            old(meta)@,
        ).contains_key(rowid) && btree::walkable(old(guard).pages(), old(meta)@.root_page) ==> (
        r matches Err(e) && e is DuplicateKey),
{
    proof {
        reveal(table_ok);
    }
    let ghost m = guard.pages();
    let ghost v = meta@;
    let ghost rows = table_rows(m, v);
    let ghost good = table_ok(m, v) && readable(row_bytes@) && indexable(v, row_bytes@, rowid);
    let ghost done = rows.insert(rowid, row_bytes@);
    proof {
        if table_ok(m, v) {
            btree::never_deep(m, v.root_page);
        }
        if good && !rows.contains_key(rowid) {
            assert forall|j: int| 0 <= j < v.indexes.len() implies #[trigger] can_list(
                m,
                v,
                j,
                row_bytes@,
                rowid,
            ) by {
                assert(staged(m, v, rows, rows, 0, j));
                assert(short_entry(entry_of(v.columns, v.indexes[j], row_bytes@, rowid)));
                room::index_takes(m, v.columns, v.indexes[j], rows, row_bytes@, rowid);
            }
        }
    }
    guard.set_sealed(meta.encrypted);
    let mut tree = BTreeWriter::new(meta.root_page);
    let new_root: u32 = match tree.insert(guard, rowid, row_bytes) {
        Ok(p) => p,
        Err(e) => {
            proof {
                if table_ok(m, v) && btree::cell_at(m, v.root_page, rowid) is None {
                    trimmed_rows(m, v);
                    room::rows_have_room(
                        m,
                        v.root_page,
                        rowid,
                        btree_writer::cell_len(row_bytes@),
                        guard.cap(),
                    );
                }
            }
            return Err(e);
        },
    };
    meta.root_page = new_root;
    let ghost m1 = guard.pages();
    let ghost v1 = meta@;
    proof {
        assert(v1 == (TableView { root_page: v1.root_page, ..v }));
        if good {
            let cell = choose|cell: Seq<u8>|
                btree_writer::stored(m1, cell, row_bytes@, v.encrypted) && #[trigger] btree_writer::tree_put(
                    m,
                    m1,
                    v.root_page,
                    v1.root_page,
                    rowid,
                    Some(cell),
                );
            stored_good(m1, cell, row_bytes@, v.encrypted);
            row_changed(m, m1, v, v1, rowid, Some(cell), rows, rows, 0);
            stage_start(m1, v1, rows, rows, done);
            rerooted_indexable(v, v1, row_bytes@, rowid);
            indexes_stay_open(m, m1, v, v1, -1, row_bytes@, rowid);
        }
    }
    if meta.indexes.len() > 0 {
        match index_update_row(
            guard,
            meta,
            rowid,
            row_bytes,
            false,
            Ghost(rows),
            Ghost(done),
        ) {
            Ok(_) => {},
            Err(e) => {
                return Err(e);
            },
        }
    }
    proof {
        if good {
            let m2 = guard.pages();
            let v2 = meta@;
            if v.indexes.len() == 0 {
                assert(stage(m2, v2, done, done, 0));
            } else {
                only_table_then(m, m1, m2, v, v1, v2);
            }
            all_indexable_step(v, v2, rows, done, rowid);
        }
    }
    Ok(())
}

/// A stored row can be read.
proof fn stored_good(m: Map<u32, Seq<u8>>, cell: Seq<u8>, bytes: Seq<u8>, tight: bool)
    requires
        btree_writer::stored(m, cell, bytes, tight),
        readable(bytes),
        bytes.len() >= 8,
    ensures
        good_cell(m, btree_node::id_of(bytes), cell),
        btree::expand(m, cell) == Some(bytes),
{
    btree_writer::stored_expands(m, cell, bytes, tight);
}

/// What comes of removing a row.
pub open spec fn delete_outcome(
    m: Map<u32, Seq<u8>>,
    m2: Map<u32, Seq<u8>>,
    v: TableView,
    v2: TableView,
    k: u64,
    r: Result<bool>,
) -> bool {
    let rows = table_rows(m, v);
    match r {
        Ok(true) => {
            &&& rows.contains_key(k)
            &&& table_ok(m2, v2)
            &&& table_rows(m2, v2) == rows.remove(k)
            &&& only_table(m, m2, v, v2)
            &&& workable(m, v) ==> workable(m2, v2)
        },
        Ok(false) => {
            &&& !rows.contains_key(k)
            &&& m2 == m
            &&& v2 == v
        },
        Err(e) => {
            &&& tree_error(e)
            &&& !workable(m, v)
        },
    }
}

/// Removes a row: from the tree of rows, and its entries from the indexes.
pub fn delete_row(guard: &mut WriteGuard, meta: &mut TableMeta, rowid: u64) -> (r: Result<bool>)
    requires
        old(guard).wf(),
    ensures
        r is Ok && file::tidy(old(guard).pages()) ==> file::tidy(final(guard).pages()),
        unpublished(*old(guard), *final(guard), old(meta)@.encrypted),
        final(guard).total() == old(guard).total(),
        rerooted(old(meta)@, final(meta)@),
        table_ok(old(guard).pages(), old(meta)@) ==> delete_outcome(
            old(guard).pages(),
            final(guard).pages(),
            old(meta)@,
            final(meta)@,
            rowid,
            r,
        ),
{
    proof {
        reveal(table_ok);
    }
    let ghost m = guard.pages();
    let ghost v = meta@;
    let ghost rows = table_rows(m, v);
    let ghost good = table_ok(m, v);
    let ghost done = rows.remove(rowid);
    proof {
        if good {
            assert(good_at(m, v.root_page, rowid));
        }
    }
    let tree = BTreeWriter::new(meta.root_page);
    let existing: Option<Vec<u8>> = if meta.indexes.len() > 0 {
        tree.search(guard, rowid)?
    } else {
        None
    };
    guard.set_sealed(meta.encrypted);
    let deleted: bool = tree.delete(guard, rowid)?;
    if !deleted {
        return Ok(false);
    }
    let ghost m1 = guard.pages();
    proof {
        if good {
            row_changed(m, m1, v, v, rowid, None, rows, rows, 0);
            indexes_stay_open(m, m1, v, v, -1, rows[rowid], rowid);
            stage_start(m1, v, rows, rows, done);
            assert(rows.contains_key(rowid));
            assert(indexable(v, rows[rowid], rowid));
        }
    }
    match existing {
        Some(bytes) => {
            index_update_row(
                guard,
                meta,
                rowid,
                bytes.as_slice(),
                true,
                Ghost(rows),
                Ghost(done),
            )?;
        },
        None => {},
    }
    proof {
        if good {
            let m2 = guard.pages();
            let v2 = meta@;
            if v.indexes.len() == 0 {
                assert(stage(m2, v2, done, done, 0));
            } else {
                only_table_then(m, m1, m2, v, v, v2);
            }
            all_indexable_step(v, v2, rows, done, rowid);
        }
    }
    Ok(true)
}

/// What comes of replacing a row.
pub open spec fn update_outcome(
    m: Map<u32, Seq<u8>>,
    m2: Map<u32, Seq<u8>>,
    v: TableView,
    v2: TableView,
    k: u64,
    bytes: Seq<u8>,
    total: int,
    r: Result<()>,
) -> bool {
    match r {
        Ok(_) => {
            &&& table_ok(m2, v2)
            &&& table_rows(m2, v2) == table_rows(m, v).insert(k, bytes)
            &&& only_table(m, m2, v, v2)
        },
        Err(e) => {
            &&& tree_error(e)
            &&& !enough_pages(v, total, bytes.len() as int)
        },
    }
}

/// Stores a row again in the tree of rows, in place of the one with its number.
pub(crate) fn replace_in_tree(
    guard: &mut WriteGuard,
    meta: &mut TableMeta,
    rowid: u64,
    new_bytes: &[u8],
    Ghost(rows): Ghost<Map<u64, Seq<u8>>>,
) -> (r: Result<()>)
    requires
        old(guard).wf(),
        8 <= new_bytes@.len() <= u32::MAX,
        btree_node::id_of(new_bytes@) == rowid,
    ensures
        r is Ok && file::tidy(old(guard).pages()) ==> file::tidy(final(guard).pages()),
        unpublished(*old(guard), *final(guard), old(meta)@.encrypted),
        stage(old(guard).pages(), old(meta)@, rows, rows, 0) && readable(new_bytes@)
            ==> final(guard).total() <= old(guard).total() + 34 + btree_writer::pages_for(
            new_bytes@.len() as int,
        ),
        final(meta)@ == (TableView { root_page: final(meta)@.root_page, ..old(meta)@ }),
        ({
            let m = old(guard).pages();
            let m2 = final(guard).pages();
            let v = old(meta)@;
            let v2 = final(meta)@;
            let h = tree::height(btree::view_of(m), v.root_page);
            stage(m, v, rows, rows, 0) && readable(new_bytes@) ==> match r {
                Ok(_) => {
                    &&& stage(m2, v2, rows, rows, 0)
                    &&& table_rows(m2, v2) == table_rows(m, v).insert(rowid, new_bytes@)
                    &&& only_table(m, m2, v, v2)
                },
                Err(e) => {
                    &&& e is Corruption || e is Io
                    &&& e is Io ==> h >= btree::MAX_TREE_DEPTH
                    &&& e is Corruption ==> h >= btree::MAX_TREE_DEPTH || old(guard).total() + h + 2
                        + btree_writer::pages_for(new_bytes@.len() as int) > u32::MAX
                },
            }
        }),
{
    let ghost m = guard.pages();
    let ghost v = meta@;
    let ghost good = stage(m, v, rows, rows, 0) && readable(new_bytes@);
    proof {
        if good {
            only_table_none(m, v);
        }
    }
    guard.set_sealed(meta.encrypted);
    let mut tree = BTreeWriter::new(meta.root_page);
    tree.delete(guard, rowid)?;
    let ghost m2 = guard.pages();
    proof {
        if good {
            if btree::cell_at(m, v.root_page, rowid) is Some {
                row_changed(m, m2, v, v, rowid, None, rows, rows, 0);
            } else {
                assert(table_rows(m, v).remove(rowid) =~= table_rows(m, v));
            }
            assert(table_rows(m2, v) == table_rows(m, v).remove(rowid));
            assert(btree::cell_at(m2, v.root_page, rowid) is None) by {
                assert(!table_rows(m2, v).contains_key(rowid));
            }
            btree::never_deep(m2, v.root_page);
        }
    }
    let new_root: u32 = match tree.insert(guard, rowid, new_bytes) {
        Ok(p) => p,
        Err(e) => {
            proof {
                if good {
                    trimmed_rows(m2, v);
                    room::rows_have_room(
                        m2,
                        v.root_page,
                        rowid,
                        btree_writer::cell_len(new_bytes@),
                        guard.cap(),
                    );
                }
            }
            return Err(e);
        },
    };
    meta.root_page = new_root;
    let ghost m3 = guard.pages();
    let ghost v3 = meta@;
    proof {
        assert(v3 == (TableView { root_page: v3.root_page, ..v }));
        if good {
            let cell = choose|cell: Seq<u8>|
                btree_writer::stored(m3, cell, new_bytes@, v.encrypted) && #[trigger] btree_writer::tree_put(
                    m2,
                    m3,
                    v.root_page,
                    v3.root_page,
                    rowid,
                    Some(cell),
                );
            stored_good(m3, cell, new_bytes@, v.encrypted);
            row_changed(m2, m3, v, v3, rowid, Some(cell), rows, rows, 0);
            only_table_then(m, m2, m3, v, v, v3);
            assert(table_rows(m, v).remove(rowid).insert(rowid, new_bytes@) =~= table_rows(
                m,
                v,
            ).insert(rowid, new_bytes@));
        }
    }
    Ok(())
}

/// Replaces a row: its entries go from the indexes, the row itself is removed
/// and stored again, and its new entries come.
pub fn update_row(
    guard: &mut WriteGuard,
    meta: &mut TableMeta,
    rowid: u64,
    old_bytes: &[u8],
    new_bytes: &[u8],
) -> (r: Result<()>)
    requires
        old(guard).wf(),
        8 <= new_bytes@.len() <= u32::MAX,
        btree_node::id_of(new_bytes@) == rowid,
    ensures
        r is Ok && file::tidy(old(guard).pages()) ==> file::tidy(final(guard).pages()),
        unpublished(*old(guard), *final(guard), old(meta)@.encrypted),
        rerooted(old(meta)@, final(meta)@),
        table_ok(old(guard).pages(), old(meta)@) && table_rows(
            old(guard).pages(),
            old(meta)@,
        ).contains_key(rowid) && table_rows(old(guard).pages(), old(meta)@)[rowid] == old_bytes@
            && readable(new_bytes@) && indexable(old(meta)@, new_bytes@, rowid)
            && enough_pages(old(meta)@, old(guard).total(), new_bytes@.len() as int)
            ==> final(guard).total() <= old(guard).total() + most_pages(old(meta)@, new_bytes@.len() as int),
        table_ok(old(guard).pages(), old(meta)@) && table_rows(
            old(guard).pages(),
            old(meta)@,
        ).contains_key(rowid) && table_rows(old(guard).pages(), old(meta)@)[rowid] == old_bytes@
            && readable(new_bytes@) && indexable(old(meta)@, new_bytes@, rowid) ==> update_outcome(
            old(guard).pages(),
            final(guard).pages(),
            old(meta)@,
            final(meta)@,
            rowid,
            new_bytes@,
            old(guard).total(),
            r,
        ),
{
    proof {
        reveal(table_ok);
    }
    let ghost m = guard.pages();
    let ghost v = meta@;
    let ghost rows = table_rows(m, v);
    let ghost good = table_ok(m, v) && rows.contains_key(rowid) && rows[rowid] == old_bytes@
        && readable(new_bytes@) && indexable(v, new_bytes@, rowid);
    let ghost less = rows.remove(rowid);
    let ghost done = less.insert(rowid, new_bytes@);
    proof {
        if good {
            stage_start(m, v, rows, rows, less);
            assert(indexable(v, rows[rowid], rowid));
            only_table_none(m, v);
            always_workable(m, v);
        }
    }
    if meta.indexes.len() > 0 {
        index_update_row(guard, meta, rowid, old_bytes, true, Ghost(rows), Ghost(less))?;
    }
    let ghost m1 = guard.pages();
    let ghost v1 = meta@;
    proof {
        if good && v.indexes.len() == 0 {
            assert(stage(m1, v1, less, less, 0));
        }
    }
    proof {
        if good {
            btree::never_deep(m1, v1.root_page);
        }
    }
    replace_in_tree(guard, meta, rowid, new_bytes, Ghost(less))?;
    let ghost m3 = guard.pages();
    let ghost v3 = meta@;
    proof {
        if good {
            only_table_then(m, m1, m3, v, v1, v3);
            stage_start(m3, v3, less, less, done);
            rerooted_indexable(v, v3, new_bytes@, rowid);
            assert(rows.insert(rowid, new_bytes@) =~= done);
            assert forall|j: int| 0 <= j < v3.indexes.len() implies #[trigger] can_list(
                m3,
                v3,
                j,
                new_bytes@,
                rowid,
            ) by {
                assert(staged(m3, v3, less, less, 0, j));
                assert(short_entry(entry_of(v3.columns, v3.indexes[j], new_bytes@, rowid)));
                room::index_takes(m3, v3.columns, v3.indexes[j], less, new_bytes@, rowid);
            }
        }
    }
    if meta.indexes.len() > 0 {
        index_update_row(guard, meta, rowid, new_bytes, false, Ghost(less), Ghost(done))?;
    }
    proof {
        if good {
            let m4 = guard.pages();
            let v4 = meta@;
            if v.indexes.len() == 0 {
                assert(stage(m4, v4, done, done, 0));
            } else {
                only_table_then(m, m3, m4, v, v3, v4);
            }
            all_indexable_step(v, v4, rows, done, rowid);
        }
    }
    Ok(())
}

// ---------------------------------------------------------------------------
// Many rows at once
// ---------------------------------------------------------------------------

/// What is found among some of the items of a sorted list.
pub proof fn filtered_find(
    items: Seq<(u64, Seq<u8>)>,
    p: spec_fn((u64, Seq<u8>)) -> bool,
    k: u64,
)
    requires
        tree::items_ok(items, None, None),
    ensures
        tree::items_ok(items.filter(p), None, None),
        tree::item_find(items.filter(p), k) == match tree::item_find(items, k) {
            Some(c) => if p((k, c)) {
                Some(c)
            } else {
                None
            },
            None => None,
        },
        forall|i: int|
            0 <= i < items.filter(p).len() ==> p(#[trigger] items.filter(p)[i]) && items.contains(
                items.filter(p)[i],
            ),
    decreases items.len(),
{
    reveal(Seq::filter);
    if items.len() == 0 {
        tree::item_find_none(items, k);
        tree::item_find_none(items.filter(p), k);
    } else {
        let rest = items.drop_last();
        let last = items.last();
        assert forall|i: int, j: int| 0 <= i < j < rest.len() implies (#[trigger] rest[i]).0.before(
            (#[trigger] rest[j]).0,
        ) by {
            assert(rest[i] == items[i] && rest[j] == items[j]);
        }
        assert(tree::items_ok(rest, None, None));
        filtered_find(rest, p, k);
        let f = rest.filter(p);
        let g = items.filter(p);
        assert forall|i: int| 0 <= i < f.len() implies (#[trigger] f[i]).0.before(last.0) by {
            let j = choose|j: int| 0 <= j < rest.len() && rest[j] == f[i];
            assert(rest[j] == items[j]);
            assert(items[items.len() - 1] == last);
        }
        if p(last) {
            assert(g == f.push(last));
            assert forall|i: int, j: int| 0 <= i < j < g.len() implies (#[trigger] g[i]).0.before(
                (#[trigger] g[j]).0,
            ) by {
                if j < f.len() {
                    assert(f[i] == g[i] && f[j] == g[j]);
                } else {
                    assert(f[i] == g[i]);
                }
            }
        }
        assert(tree::items_ok(g, None, None));
        if k == last.0 {
            tree::item_find_at(items, None, None, items.len() - 1);
            if p(last) {
                tree::item_find_at(g, None, None, g.len() - 1);
            } else {
                assert forall|i: int| 0 <= i < g.len() implies (#[trigger] g[i]).0 != k by {
                    assert(f[i].0.before(last.0));
                }
                tree::item_find_none(g, k);
            }
        } else {
            find_before_last(items, k);
            if p(last) {
                assert(g.drop_last() =~= f);
                find_before_last(g, k);
            }
        }
        assert forall|i: int| 0 <= i < g.len() implies p(#[trigger] g[i]) && items.contains(g[i]) by {
            if i < f.len() {
                assert(f[i] == g[i]);
                let j = choose|j: int| 0 <= j < rest.len() && rest[j] == f[i];
                assert(items[j] == g[i]);
            } else {
                assert(items[items.len() - 1] == g[i]);
            }
        }
    }
}

/// A search that the last item does not answer is answered by the others.
proof fn find_before_last(items: Seq<(u64, Seq<u8>)>, k: u64)
    requires
        tree::items_ok(items, None, None),
        items.len() > 0,
        items.last().0 != k,
    ensures
        tree::item_find(items, k) == tree::item_find(items.drop_last(), k),
{
    let rest = items.drop_last();
    assert forall|i: int, j: int| 0 <= i < j < rest.len() implies (#[trigger] rest[i]).0.before(
        (#[trigger] rest[j]).0,
    ) by {
        assert(rest[i] == items[i] && rest[j] == items[j]);
    }
    if exists|i: int| 0 <= i < rest.len() && (#[trigger] rest[i]).0 == k {
        let i = choose|i: int| 0 <= i < rest.len() && (#[trigger] rest[i]).0 == k;
        assert(items[i] == rest[i]);
        tree::item_find_at(items, None, None, i);
        tree::item_find_at(rest, None, None, i);
    } else {
        tree::item_find_none(rest, k);
        assert forall|i: int| 0 <= i < items.len() implies (#[trigger] items[i]).0 != k by {
            if i < rest.len() {
                assert(rest[i] == items[i]);
            }
        }
        tree::item_find_none(items, k);
    }
}

/// The cell under a number is among all cells.
pub proof fn cell_listed(m: Map<u32, Seq<u8>>, root: u32, k: u64)
    requires
        btree::is_tree(m, root),
    ensures
        match btree::cell_at(m, root, k) {
            Some(c) => btree::all_cells(m, root).contains((k, c)),
            None => true,
        },
{
    let cells = btree::all_cells(m, root);
    tree::all_sorted(btree::view_of(m), root);
    assert(btree::cell_at(m, root, k) == tree::item_find(cells, k));
    if btree::cell_at(m, root, k) is Some {
        let i = choose|i: int| 0 <= i < cells.len() && (#[trigger] cells[i]).0 == k;
        assert(cells[i] == (k, btree::cell_at(m, root, k)->0));
    }
}

/// All cells of a sound tree can be read.
pub proof fn cells_sound(m: Map<u32, Seq<u8>>, root: u32)
    requires
        rows_sound(m, root),
    ensures
        btree_bulk::all_sound(m, btree::all_cells(m, root)),
        btree::all_expand(m, btree::all_cells(m, root)),
        forall|i: int|
            0 <= i < btree::all_cells(m, root).len() ==> {
                let c = #[trigger] btree::all_cells(m, root)[i];
                &&& btree::cell_at(m, root, c.0) == Some(c.1)
                &&& good_cell(m, c.0, c.1)
                &&& rows_of(m, root).contains_key(c.0)
                &&& btree::whole(m, c.1) == (c.0, rows_of(m, root)[c.0])
            },
{
    let cells = btree::all_cells(m, root);
    assert forall|i: int| 0 <= i < cells.len() implies {
        let c = #[trigger] cells[i];
        &&& btree::cell_at(m, root, c.0) == Some(c.1)
        &&& good_cell(m, c.0, c.1)
        &&& rows_of(m, root).contains_key(c.0)
        &&& btree::whole(m, c.1) == (c.0, rows_of(m, root)[c.0])
    } by {
        listed_cell(m, root, i);
        assert(good_at(m, root, cells[i].0));
    }
}

}
