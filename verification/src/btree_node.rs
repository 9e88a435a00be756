//! The pages of trees.
//!
//! A leaf holds cells: an array of their offsets behind the header, then the
//! cells. In a row tree the cells are rows in ascending order of their ids, and a
//! branch holds `[child:4][key:8]` entries and one more child.

use crate::bytes;
use crate::bytes::{read_u32, read_u64};
use crate::page;
use crate::page::{Page, CHECKSUM_OFFSET, PAGE_BRANCH, PAGE_HEADER_SIZE, PAGE_LEAF};
use crate::tree;
use crate::tree::{Key, Node};
use vstd::prelude::*;

verus! {

impl Key for u64 {
    open spec fn before(self, other: u64) -> bool {
        self < other
    }

    proof fn irreflexive(a: u64) {
    }

    proof fn transitive(a: u64, b: u64, c: u64) {
    }

    proof fn total(a: u64, b: u64) {
    }
}

/// Bytes of an entry of a branch page.
pub const BRANCH_ENTRY_SIZE: usize = 12;

/// The most keys that a branch page holds.
pub const MAX_BRANCH_KEYS: usize = 339;

/// Where row `i` starts; the end of the last row for `i == count`.
pub open spec fn row_at(s: Seq<u8>, i: int) -> int {
    if i < page::count_of(s) {
        page::slot_of(s, i) as int
    } else {
        page::free_of(s) as int
    }
}

/// The rows of a leaf lie behind the offset array without gaps, each has an id,
/// and they end before the checksum.
#[verifier::opaque]
pub open spec fn leaf_ok(s: Seq<u8>) -> bool {
    &&& s.len() == 4096
    &&& page::has_flag(s, PAGE_LEAF)
    &&& row_at(s, 0) == 16 + 2 * page::count_of(s)
    &&& page::free_of(s) <= 4092
    &&& 16 + 2 * page::count_of(s) <= 4092
    &&& forall|i: int|
        0 <= i < page::count_of(s) ==> #[trigger] row_ok(s, i)
}

/// Cell `i` holds at least two bytes.
pub open spec fn row_ok(s: Seq<u8>, i: int) -> bool {
    page::slot_of(s, i) + 2 <= row_at(s, i + 1)
}

/// Every cell holds at least `n` bytes.
pub open spec fn long_cells(rows: Seq<Seq<u8>>, n: int) -> bool {
    forall|i: int| 0 <= i < rows.len() ==> (#[trigger] rows[i]).len() >= n
}

/// A leaf whose cells are long enough to hold ids.
pub open spec fn row_leaf(s: Seq<u8>) -> bool {
    leaf_ok(s) && long_cells(cells(s), 8)
}

/// The pages of nodes have the size of pages.
pub proof fn node_size(s: Seq<u8>)
    ensures
        leaf_ok(s) ==> s.len() == 4096,
        branch_ok(s) ==> s.len() == 4096,
{
    reveal(leaf_ok);
}

/// A leaf has the flag of leaves, and the number of its rows is limited.
pub proof fn leaf_basics(s: Seq<u8>)
    ensures
        leaf_ok(s) ==> page::has_flag(s, PAGE_LEAF) && page::count_of(s) <= 2038,
{
    reveal(leaf_ok);
}

/// The offsets of a leaf stay before the checksum.
pub proof fn leaf_bounds(s: Seq<u8>)
    requires
        leaf_ok(s),
    ensures
        16 + 2 * page::count_of(s) <= page::free_of(s) <= 4092,
{
    row_at_ascends(s, 0, page::count_of(s) as int);
    reveal(leaf_ok);
}

/// The bytes of row `i`.
pub open spec fn cell(s: Seq<u8>, i: int) -> Seq<u8> {
    s.subrange(row_at(s, i), row_at(s, i + 1))
}

/// The rows of a leaf.
pub open spec fn cells(s: Seq<u8>) -> Seq<Seq<u8>> {
    Seq::new(page::count_of(s) as nat, |i: int| cell(s, i))
}

/// The id of a row.
pub open spec fn id_of(row: Seq<u8>) -> u64 {
    bytes::get_u64(row, 0)
}

/// Rows with their ids as keys.
pub open spec fn keyed(rows: Seq<Seq<u8>>) -> Seq<(u64, Seq<u8>)> {
    rows.map_values(|r: Seq<u8>| (id_of(r), r))
}

/// The total length of the rows.
pub open spec fn total_len(rows: Seq<Seq<u8>>) -> int
    decreases rows.len(),
{
    if rows.len() == 0 {
        0
    } else {
        total_len(rows.drop_last()) + rows.last().len()
    }
}

/// The rows fit into one leaf the contents of which end at `cap`.
pub open spec fn rows_fit(rows: Seq<Seq<u8>>, cap: int) -> bool {
    16 + 2 * rows.len() + total_len(rows) <= cap
}

/// A page is trimmed if its rows end in time.
pub open spec fn snug(s: Seq<u8>) -> bool {
    rows_fit(cells(s), 4068) ==> page::trimmed(s)
}

/// The rows of a trimmed leaf end in time.
pub proof fn trimmed_fits(s: Seq<u8>)
    requires
        leaf_ok(s),
    ensures
        rows_fit(cells(s), 4092),
        page::trimmed(s) ==> rows_fit(cells(s), 4068),
{
    leaf_total(s);
    leaf_basics(s);
    page::trimmed_means(s);
    reveal(leaf_ok);
}

/// The entries of a branch end before the checksum.
pub open spec fn branch_ok(s: Seq<u8>) -> bool {
    &&& s.len() == 4096
    &&& !page::has_flag(s, PAGE_LEAF)
    &&& page::has_flag(s, PAGE_BRANCH)
    &&& 20 + 12 * page::count_of(s) <= 4092
}

/// The children of a branch.
pub open spec fn children_of(s: Seq<u8>) -> Seq<u32> {
    Seq::new((page::count_of(s) + 1) as nat, |i: int| bytes::get_u32(s, 16 + 12 * i))
}

/// The keys of a branch.
pub open spec fn keys_of(s: Seq<u8>) -> Seq<u64> {
    Seq::new(page::count_of(s) as nat, |i: int| bytes::get_u64(s, 20 + 12 * i))
}

/// The node that a page holds.
pub open spec fn node_of(s: Seq<u8>) -> Node<u64, Seq<u8>> {
    if row_leaf(s) {
        Node::Leaf { items: keyed(cells(s)), next: page::next_of(s) }
    } else if branch_ok(s) {
        Node::Branch { children: children_of(s), keys: keys_of(s) }
    } else {
        Node::Other
    }
}

/// The nodes that pages hold.
pub open spec fn nodes(pages: Map<u32, Seq<u8>>) -> Map<u32, Node<u64, Seq<u8>>> {
    pages.map_values(|s: Seq<u8>| node_of(s))
}

// ---------------------------------------------------------------------------
// Facts about rows in a leaf
// ---------------------------------------------------------------------------

/// The row offsets of a leaf ascend.
pub proof fn row_at_ascends(s: Seq<u8>, i: int, j: int)
    requires
        leaf_ok(s),
        0 <= i <= j <= page::count_of(s),
    ensures
        row_at(s, i) + 2 * (j - i) <= row_at(s, j),
        16 <= row_at(s, i),
        row_at(s, j) <= 4092,
    decreases j - i,
{
    reveal(leaf_ok);
    if i < j {
        row_at_ascends(s, i, j - 1);
        assert(row_ok(s, j - 1));
        if j == page::count_of(s) {
        } else {
            row_at_ascends_up(s, j);
        }
    } else {
        row_at_ascends_down(s, i);
        row_at_ascends_up(s, i);
    }
}

proof fn row_at_ascends_up(s: Seq<u8>, i: int)
    requires
        leaf_ok(s),
        0 <= i <= page::count_of(s),
    ensures
        row_at(s, i) <= 4092,
    decreases page::count_of(s) - i,
{
    reveal(leaf_ok);
    if i < page::count_of(s) {
        assert(row_ok(s, i));
        row_at_ascends_up(s, i + 1);
    }
}

proof fn row_at_ascends_down(s: Seq<u8>, i: int)
    requires
        leaf_ok(s),
        0 <= i <= page::count_of(s),
    ensures
        row_at(s, i) >= 16 + 2 * page::count_of(s),
    decreases i,
{
    reveal(leaf_ok);
    if i > 0 {
        row_at_ascends_down(s, i - 1);
        assert(row_ok(s, i - 1));
    }
}

/// The length of the rows of a leaf is that of its data area.
pub proof fn leaf_total(s: Seq<u8>)
    requires
        leaf_ok(s),
    ensures
        total_len(cells(s)) == page::free_of(s) - (16 + 2 * page::count_of(s)),
        forall|i: int| 0 <= i < cells(s).len() ==> (#[trigger] cells(s)[i]).len() >= 2,
{
    reveal(leaf_ok);
    leaf_total_to(s, page::count_of(s) as int);
    assert(cells(s).take(page::count_of(s) as int) =~= cells(s));
    assert forall|i: int| 0 <= i < cells(s).len() implies (#[trigger] cells(s)[i]).len() >= 2 by {
        row_at_ascends(s, i, i + 1);
    }
}

proof fn leaf_total_to(s: Seq<u8>, m: int)
    requires
        leaf_ok(s),
        0 <= m <= page::count_of(s),
    ensures
        total_len(cells(s).take(m)) == row_at(s, m) - (16 + 2 * page::count_of(s)),
    decreases m,
{
    reveal(leaf_ok);
    if m > 0 {
        leaf_total_to(s, m - 1);
        assert(cells(s).take(m).drop_last() =~= cells(s).take(m - 1));
        row_at_ascends(s, m - 1, m);
        assert(cells(s).take(m).last() == cell(s, m - 1));
    }
}

/// The length of rows put in a row.
pub proof fn total_len_push(rows: Seq<Seq<u8>>, r: Seq<u8>)
    ensures
        total_len(rows.push(r)) == total_len(rows) + r.len(),
{
    assert(rows.push(r).drop_last() =~= rows);
}

/// The length of concatenated rows.
pub proof fn total_len_concat(a: Seq<Seq<u8>>, b: Seq<Seq<u8>>)
    ensures
        total_len(a + b) == total_len(a) + total_len(b),
    decreases b.len(),
{
    if b.len() == 0 {
        assert(a + b =~= a);
    } else {
        assert((a + b).drop_last() =~= a + b.drop_last());
        total_len_concat(a, b.drop_last());
    }
}

/// Lengths are not negative, and a part is no longer than the whole.
pub proof fn total_len_take(rows: Seq<Seq<u8>>, m: int)
    requires
        0 <= m <= rows.len(),
    ensures
        0 <= total_len(rows.take(m)) <= total_len(rows),
        m < rows.len() ==> total_len(rows.take(m)) + rows[m].len() == total_len(rows.take(m + 1)),
    decreases rows.len() - m,
{
    total_len_nonneg(rows.take(m));
    if m < rows.len() {
        total_len_take(rows, m + 1);
        assert(rows.take(m + 1).drop_last() =~= rows.take(m));
        assert(rows.take(m + 1).last() == rows[m]);
    } else {
        assert(rows.take(m) =~= rows);
    }
}

pub proof fn total_len_nonneg(rows: Seq<Seq<u8>>)
    ensures
        total_len(rows) >= 0,
    decreases rows.len(),
{
    if rows.len() > 0 {
        total_len_nonneg(rows.drop_last());
    }
}

/// Inserting a row adds its length.
pub proof fn total_len_insert(rows: Seq<Seq<u8>>, pos: int, r: Seq<u8>)
    requires
        0 <= pos <= rows.len(),
    ensures
        total_len(rows.insert(pos, r)) == total_len(rows) + r.len(),
{
    let a = rows.subrange(0, pos);
    let b = rows.subrange(pos, rows.len() as int);
    assert(rows =~= a + b);
    total_len_concat(a, b);
    assert(rows.insert(pos, r) =~= a.push(r) + b);
    total_len_concat(a.push(r), b);
    total_len_push(a, r);
}

// ---------------------------------------------------------------------------
// Reading leaves
// ---------------------------------------------------------------------------

/// The byte range of row `i`.
pub fn row_bounds(page: &Page, i: usize, num_rows: usize) -> (r: (usize, usize))
    requires
        i < num_rows == page::count_of(page.data@),
        18 + 2 * num_rows <= 4096,
    ensures
        r.0 == row_at(page.data@, i as int),
        r.1 == row_at(page.data@, i + 1),
{
    let start: usize = page.row_offset(i as u16) as usize;
    let end: usize = if i + 1 < num_rows {
        page.row_offset((i + 1) as u16) as usize
    } else {
        page.free_space_offset() as usize
    };
    (start, end)
}

/// Whether a page is a well-formed leaf.
pub fn check_leaf(page: &Page) -> (r: bool)
    ensures
        r == leaf_ok(page.data@),
{
    proof {
        reveal(leaf_ok);
    }
    if !page.is_leaf() {
        return false;
    }
    let n: usize = page.num_rows() as usize;
    let free: usize = page.free_space_offset() as usize;
    if free > CHECKSUM_OFFSET || 16 + 2 * n > CHECKSUM_OFFSET {
        return false;
    }
    if n == 0 {
        return free == 16;
    }
    if page.row_offset(0) as usize != 16 + 2 * n {
        return false;
    }
    let mut i: usize = 0;
    while i < n
        invariant
            i <= n == page::count_of(page.data@),
            16 + 2 * n <= 4092,
            forall|j: int|
                0 <= j < i ==> #[trigger] row_ok(page.data@, j),
        decreases n - i,
    {
        proof {
            reveal(leaf_ok);
        }
        let (start, end): (usize, usize) = row_bounds(page, i, n);
        if start + 2 > end {
            assert(!row_ok(page.data@, i as int));
            return false;
        }
        i += 1;
    }
    true
}

/// Whether a page is a well-formed leaf of rows.
pub fn check_row_leaf(page: &Page) -> (r: bool)
    ensures
        r == row_leaf(page.data@),
{
    if !check_leaf(page) {
        return false;
    }
    let n: usize = page.num_rows() as usize;
    let mut i: usize = 0;
    while i < n
        invariant
            i <= n == page::count_of(page.data@),
            leaf_ok(page.data@),
            forall|j: int| 0 <= j < i ==> (#[trigger] cells(page.data@)[j]).len() >= 8,
        decreases n - i,
    {
        let row: &[u8] = leaf_row(page, i);
        assert(cells(page.data@)[i as int] == row@);
        if row.len() < 8 {
            return false;
        }
        i += 1;
    }
    true
}

/// The bytes of row `i` of a leaf.
pub fn leaf_row(page: &Page, i: usize) -> (r: &[u8])
    requires
        leaf_ok(page.data@),
        i < page::count_of(page.data@),
    ensures
        r@ == cell(page.data@, i as int),
        r@.len() >= 2,
        row_leaf(page.data@) ==> r@.len() >= 8,
{
    proof {
        reveal(leaf_ok);
    }
    let n: usize = page.num_rows() as usize;
    let (start, end): (usize, usize) = row_bounds(page, i, n);
    proof {
        row_at_ascends(page.data@, i as int, i + 1);
        assert(cells(page.data@)[i as int] == cell(page.data@, i as int));
    }
    &page.data[start..end]
}

/// The items of a leaf, as the tree sees them.
pub open spec fn items_of(s: Seq<u8>) -> Seq<(u64, Seq<u8>)> {
    keyed(cells(s))
}

/// Binary search for a row id: its index and `true`, or the index where it
/// would be inserted and `false`.
pub fn find_insertion_point(page: &Page, rowid: u64) -> (r: (usize, bool))
    requires
        row_leaf(page.data@),
    ensures
        r.0 <= page::count_of(page.data@),
        r.1 ==> r.0 < page::count_of(page.data@) && id_of(cell(page.data@, r.0 as int)) == rowid,
        tree::items_ok::<u64, Seq<u8>>(items_of(page.data@), None, None) ==> {
            &&& r.1 <==> tree::item_find(items_of(page.data@), rowid) is Some
            &&& forall|i: int| 0 <= i < r.0 ==> (#[trigger] items_of(page.data@)[i]).0 < rowid
            &&& !r.1 ==> forall|i: int|
                r.0 <= i < items_of(page.data@).len() ==> (#[trigger] items_of(page.data@)[i]).0
                    > rowid
        },
{
    proof {
        reveal(leaf_ok);
    }
    let ghost items = items_of(page.data@);
    let ghost sorted = tree::items_ok::<u64, Seq<u8>>(items, None, None);
    let n: usize = page.num_rows() as usize;
    let mut lo: usize = 0;
    let mut hi: usize = n;
    while lo < hi
        invariant
            lo <= hi <= n == page::count_of(page.data@),
            row_leaf(page.data@),
            items == items_of(page.data@),
            sorted == tree::items_ok::<u64, Seq<u8>>(items, None, None),
            sorted ==> forall|i: int| 0 <= i < lo ==> (#[trigger] items[i]).0 < rowid,
            sorted ==> forall|i: int| hi <= i < n ==> (#[trigger] items[i]).0 > rowid,
        decreases hi - lo,
    {
        proof {
            reveal(leaf_ok);
        }
        let mid: usize = lo + (hi - lo) / 2;
        let row: &[u8] = leaf_row(page, mid);
        let mid_id: u64 = read_u64(row, 0);
        assert(items[mid as int] == (mid_id, cell(page.data@, mid as int)));
        if mid_id < rowid {
            assert(sorted ==> forall|i: int| 0 <= i < mid ==> (#[trigger] items[i]).0.before(
                items[mid as int].0,
            ));
            lo = mid + 1;
        } else if mid_id > rowid {
            assert(sorted ==> forall|i: int|
                mid < i < n ==> items[mid as int].0.before((#[trigger] items[i]).0));
            hi = mid;
        } else {
            proof {
                if sorted {
                    tree::item_find_at(items, None, None, mid as int);
                    assert(forall|i: int|
                        0 <= i < mid ==> (#[trigger] items[i]).0.before(items[mid as int].0));
                }
            }
            return (mid, true);
        }
    }
    proof {
        if sorted {
            assert forall|i: int| 0 <= i < items.len() implies (#[trigger] items[i]).0 != rowid by {}
            tree::item_find_none(items, rowid);
        }
    }
    (lo, false)
}

// ---------------------------------------------------------------------------
// Writing leaves
// ---------------------------------------------------------------------------

/// The byte strings behind slices.
pub open spec fn slices(v: Seq<&[u8]>) -> Seq<Seq<u8>> {
    v.map_values(|r: &[u8]| r@)
}

/// The rows of a leaf, as slices of its page.
pub fn rows_of<'a>(page: &'a Page) -> (v: Vec<&'a [u8]>)
    requires
        leaf_ok(page.data@),
    ensures
        slices(v@) == cells(page.data@),
        v@.len() == page::count_of(page.data@),
{
    proof {
        reveal(leaf_ok);
    }
    let n: usize = page.num_rows() as usize;
    let mut v: Vec<&'a [u8]> = Vec::new();
    let mut i: usize = 0;
    while i < n
        invariant
            i <= n == page::count_of(page.data@),
            leaf_ok(page.data@),
            v@.len() == i,
            forall|j: int| 0 <= j < i ==> (#[trigger] v@[j])@ == cell(page.data@, j),
        decreases n - i,
    {
        proof {
            reveal(leaf_ok);
        }
        let r: &'a [u8] = leaf_row(page, i);
        v.push(r);
        i += 1;
    }
    assert(slices(v@) =~= cells(page.data@));
    v
}

/// The first rows of a leaf of `total` rows are written, up to `pos`.
spec fn built(s: Seq<u8>, total: int, rows: Seq<Seq<u8>>, pos: int) -> bool {
    &&& s.len() == 4096
    &&& rows.len() <= total
    &&& 16 + 2 * total <= pos <= 4092
    &&& pos <= 4068 ==> page::tail_clear(s)
    &&& pos == 16 + 2 * total + total_len(rows)
    &&& forall|i: int|
        0 <= i < rows.len() ==> {
            &&& (#[trigger] page::slot_of(s, i)) == 16 + 2 * total + total_len(rows.take(i))
            &&& page::slot_of(s, i) + rows[i].len() <= pos
            &&& s.subrange(page::slot_of(s, i) as int, page::slot_of(s, i) + rows[i].len())
                == rows[i]
        }
}

/// Writes the next row of a leaf.
fn push_row(
    page: &mut Page,
    total: usize,
    idx: usize,
    pos: usize,
    row: &[u8],
    Ghost(rows): Ghost<Seq<Seq<u8>>>,
) -> (r: usize)
    requires
        built(old(page).data@, total as int, rows, pos as int),
        rows.len() == idx < total,
        pos + row@.len() <= 4092,
    ensures
        built(final(page).data@, total as int, rows.push(row@), r as int),
        r == pos + row@.len(),
        page::same_but(old(page).data@, final(page).data@, 16, 4076),
{
    let len: usize = row.len();
    let ghost s0 = page.data@;
    page.put(pos, row);
    let ghost s1 = page.data@;
    page.set_row_offset(idx as u16, pos as u16);
    let ghost s2 = page.data@;
    proof {
        let all = rows.push(row@);
        let t = total as int;
        page::same_but_fields(s0, s1, pos as int, len as int);
        total_len_push(rows, row@);
        assert(all.take(idx as int) =~= rows);
        assert forall|i: int| 0 <= i < all.len() implies {
            &&& (#[trigger] page::slot_of(s2, i)) == 16 + 2 * t + total_len(all.take(i))
            &&& page::slot_of(s2, i) + all[i].len() <= pos + len
            &&& s2.subrange(page::slot_of(s2, i) as int, page::slot_of(s2, i) + all[i].len())
                == all[i]
        } by {
            if i < idx {
                assert(all.take(i) =~= rows.take(i));
                assert(page::slot_of(s0, i) == 16 + 2 * t + total_len(rows.take(i)));
                assert(page::slot_of(s1, i) == page::slot_of(s0, i));
                assert(page::slot_of(s2, i) == page::slot_of(s1, i));
                let a = page::slot_of(s0, i) as int;
                total_len_take(rows, i);
                assert(s2.subrange(a, a + all[i].len() as int) =~= s0.subrange(
                    a,
                    a + rows[i].len() as int,
                ));
            } else {
                let a = pos as int;
                assert(s2.subrange(a, a + len as int) =~= s1.subrange(a, a + len as int));
            }
        }
    }
    pos + len
}

/// Makes `page` a leaf with the given rows and chain pointers.
pub fn write_rows(page: &mut Page, rows: &Vec<&[u8]>, next: u32, prev: u32)
    requires
        rows_fit(slices(rows@), 4092),
        forall|i: int| 0 <= i < rows@.len() ==> (#[trigger] rows@[i])@.len() >= 2,
    ensures
        leaf_ok(final(page).data@),
        snug(final(page).data@),
        cells(final(page).data@) == slices(rows@),
        page::next_of(final(page).data@) == next,
        page::prev_of(final(page).data@) == prev,
        page::magic_of(final(page).data@) == page::magic_of(old(page).data@),
        page::flags_of(final(page).data@) == PAGE_LEAF,
{
    proof {
        reveal(leaf_ok);
    }
    let total: usize = rows.len();
    let ghost all = slices(rows@);
    proof {
        total_len_nonneg(all);
    }
    page.set_flags(PAGE_LEAF);
    page.set_num_rows(0);
    page.set_next_leaf(next);
    page.set_prev_leaf(prev);
    let ghost head = page.data@;
    page.clear_body();
    let mut pos: usize = PAGE_HEADER_SIZE + total * 2;
    let mut i: usize = 0;
    assert(all.take(0) =~= Seq::empty());
    while i < total
        invariant
            i <= total == rows@.len(),
            all == slices(rows@),
            rows_fit(all, 4092),
            page::same_but(head, page.data@, 16, 4076),
            built(page.data@, total as int, all.take(i as int), pos as int),
        decreases total - i,
    {
        proof {
            reveal(leaf_ok);
        }
        let row: &[u8] = rows[i];
        proof {
            total_len_take(all, i as int);
            total_len_take(all, i + 1);
            assert(all.take(i + 1) =~= all.take(i as int).push(row@));
        }
        pos = push_row(page, total, i, pos, row, Ghost(all.take(i as int)));
        i += 1;
    }
    assert(all.take(total as int) =~= all);
    let ghost s0 = page.data@;
    proof {
        page::same_but_fields(head, s0, 16, 4076);
    }
    page.set_num_rows(total as u16);
    let ghost s1 = page.data@;
    page.set_free_space_offset(pos as u16);
    let ghost s2 = page.data@;
    proof {
        page::same_but_fields(s0, s1, 4, 2);
        page::same_but_fields(s1, s2, 6, 2);
        page::trimmed_means(s2);
        written_leaf(s0, s2, total as int, all, pos as int);
    }
}

/// A page with all rows built and the header set is a leaf with these rows.
proof fn written_leaf(s0: Seq<u8>, s: Seq<u8>, total: int, rows: Seq<Seq<u8>>, pos: int)
    requires
        built(s0, total, rows, pos),
        rows.len() == total,
        s.len() == 4096,
        forall|i: int| 16 <= i < 4096 ==> s[i] == s0[i],
        page::flags_of(s) == PAGE_LEAF,
        page::count_of(s) == total,
        page::free_of(s) == pos,
        forall|i: int| 0 <= i < rows.len() ==> (#[trigger] rows[i]).len() >= 2,
    ensures
        leaf_ok(s),
        cells(s) == rows,
{
    reveal(leaf_ok);
    assert(1u16 & 1u16 != 0) by (bit_vector);
    assert forall|i: int| 0 <= i < total implies #[trigger] page::slot_of(s, i) == page::slot_of(
        s0,
        i,
    ) by {
        page::agree_at(s, s0, 16 + 2 * i);
    }
    assert forall|i: int| 0 <= i <= total implies #[trigger] row_at(s, i) == 16 + 2 * total
        + total_len(rows.take(i)) by {
        if i == total {
            assert(rows.take(i) =~= rows);
        } else {
            assert(page::slot_of(s, i) == page::slot_of(s0, i));
        }
    }
    assert(rows.take(0) =~= Seq::empty());
    assert(row_at(s, 0) == 16 + 2 * total);
    assert forall|i: int| 0 <= i < total implies #[trigger] row_ok(s, i) by {
        total_len_take(rows, i);
        assert(row_at(s, i) == page::slot_of(s, i));
        assert(row_at(s, i + 1) == 16 + 2 * total + total_len(rows.take(i + 1)));
        assert(rows[i].len() >= 2);
    }
    assert forall|i: int| 0 <= i < total implies cells(s)[i] == #[trigger] rows[i] by {
        total_len_take(rows, i);
        assert(row_at(s, i) == page::slot_of(s, i));
        assert(row_at(s, i + 1) == 16 + 2 * total + total_len(rows.take(i + 1)));
        assert(page::slot_of(s, i) == page::slot_of(s0, i));
        let a = page::slot_of(s0, i) as int;
        assert(s.subrange(a, a + rows[i].len() as int) =~= s0.subrange(
            a,
            a + rows[i].len() as int,
        ));
    }
    assert(cells(s) =~= rows);
}

/// The rows of `snapshot` with a new row at `insert_pos`.
fn rows_with_insert<'a>(snapshot: &'a Page, insert_pos: usize, new_row: &'a [u8]) -> (v: Vec<
    &'a [u8],
>)
    requires
        leaf_ok(snapshot.data@),
        insert_pos <= page::count_of(snapshot.data@),
        new_row@.len() >= 2,
    ensures
        slices(v@) == cells(snapshot.data@).insert(insert_pos as int, new_row@),
        v@.len() == page::count_of(snapshot.data@) + 1,
        forall|i: int| 0 <= i < v@.len() ==> (#[trigger] v@[i])@.len() >= 2,
{
    proof {
        reveal(leaf_ok);
    }
    let mut v: Vec<&'a [u8]> = rows_of(snapshot);
    let ghost before = v@;
    v.insert(insert_pos, new_row);
    proof {
        leaf_total(snapshot.data@);
        assert(slices(v@) =~= slices(before).insert(insert_pos as int, new_row@));
        assert forall|i: int| 0 <= i < v@.len() implies (#[trigger] v@[i])@.len() >= 2 by {
            if i < insert_pos {
                assert(slices(before)[i] == cells(snapshot.data@)[i]);
            } else if i > insert_pos {
                assert(slices(before)[i - 1] == cells(snapshot.data@)[i - 1]);
            }
        }
    }
    v
}

/// Makes `page` the leaf `snapshot` with a new row at `insert_pos`.
pub fn write_leaf_with_insert(page: &mut Page, snapshot: &Page, insert_pos: usize, new_row: &[u8])
    requires
        leaf_ok(snapshot.data@),
        insert_pos <= page::count_of(snapshot.data@),
        new_row@.len() >= 2,
        rows_fit(cells(snapshot.data@).insert(insert_pos as int, new_row@), 4092),
    ensures
        leaf_ok(final(page).data@),
        snug(final(page).data@),
        cells(final(page).data@) == cells(snapshot.data@).insert(insert_pos as int, new_row@),
        row_leaf(snapshot.data@) && new_row@.len() >= 8 ==> row_leaf(final(page).data@),
        page::next_of(final(page).data@) == page::next_of(snapshot.data@),
        page::prev_of(final(page).data@) == page::prev_of(snapshot.data@),
        page::magic_of(final(page).data@) == page::magic_of(old(page).data@),
        page::flags_of(final(page).data@) == PAGE_LEAF,
{
    proof {
        reveal(leaf_ok);
    }
    let rows: Vec<&[u8]> = rows_with_insert(snapshot, insert_pos, new_row);
    write_rows(page, &rows, snapshot.next_leaf(), snapshot.prev_leaf());
}

/// Makes `page` a leaf, outside any chain, with the rows of `snapshot` except
/// the one at `skip_pos`.
pub fn write_leaf_without(page: &mut Page, snapshot: &Page, skip_pos: usize)
    requires
        leaf_ok(snapshot.data@),
        skip_pos < page::count_of(snapshot.data@),
    ensures
        leaf_ok(final(page).data@),
        page::trimmed(snapshot.data@) ==> page::trimmed(final(page).data@),
        cells(final(page).data@) == cells(snapshot.data@).remove(skip_pos as int),
        row_leaf(snapshot.data@) ==> row_leaf(final(page).data@),
        page::next_of(final(page).data@) == 0,
        page::prev_of(final(page).data@) == 0,
        page::magic_of(final(page).data@) == page::magic_of(old(page).data@),
        page::flags_of(final(page).data@) == PAGE_LEAF,
{
    proof {
        reveal(leaf_ok);
    }
    let mut rows: Vec<&[u8]> = rows_of(snapshot);
    let ghost before = rows@;
    rows.remove(skip_pos);
    proof {
        let cs = cells(snapshot.data@);
        leaf_total(snapshot.data@);
        assert(slices(rows@) =~= cs.remove(skip_pos as int));
        assert(cs =~= cs.remove(skip_pos as int).insert(skip_pos as int, cs[skip_pos as int]));
        total_len_insert(cs.remove(skip_pos as int), skip_pos as int, cs[skip_pos as int]);
        assert forall|i: int| 0 <= i < rows@.len() implies (#[trigger] rows@[i])@.len() >= 2 by {
            let j = if i < skip_pos { i } else { i + 1 };
            assert(slices(before)[j] == cs[j]);
        }
    }
    proof {
        trimmed_fits(snapshot.data@);
    }
    write_rows(page, &rows, 0, 0);
}

/// Makes `page` a leaf, outside any chain, with the rows from `range_start` to
/// `range_end` of what `snapshot` with a new row at `insert_pos` holds.
pub fn write_leaf_range(
    page: &mut Page,
    snapshot: &Page,
    insert_pos: usize,
    new_row: &[u8],
    range_start: usize,
    range_end: usize,
)
    requires
        leaf_ok(snapshot.data@),
        insert_pos <= page::count_of(snapshot.data@),
        new_row@.len() >= 2,
        range_start <= range_end <= page::count_of(snapshot.data@) + 1,
        rows_fit(
            cells(snapshot.data@).insert(insert_pos as int, new_row@).subrange(
                range_start as int,
                range_end as int,
            ),
            4092,
        ),
    ensures
        leaf_ok(final(page).data@),
        snug(final(page).data@),
        cells(final(page).data@) == cells(snapshot.data@).insert(
            insert_pos as int,
            new_row@,
        ).subrange(range_start as int, range_end as int),
        row_leaf(snapshot.data@) && new_row@.len() >= 8 ==> row_leaf(final(page).data@),
        page::next_of(final(page).data@) == 0,
        page::prev_of(final(page).data@) == 0,
        page::magic_of(final(page).data@) == page::magic_of(old(page).data@),
        page::flags_of(final(page).data@) == PAGE_LEAF,
{
    proof {
        reveal(leaf_ok);
    }
    let all: Vec<&[u8]> = rows_with_insert(snapshot, insert_pos, new_row);
    let mut rows: Vec<&[u8]> = Vec::new();
    let mut i: usize = range_start;
    while i < range_end
        invariant
            range_start <= i <= range_end <= all@.len(),
            rows@.len() == i - range_start,
            forall|j: int| 0 <= j < rows@.len() ==> #[trigger] rows@[j] == all@[range_start + j],
        decreases range_end - i,
    {
        proof {
            reveal(leaf_ok);
        }
        rows.push(all[i]);
        i += 1;
    }
    proof {
        assert(slices(rows@) =~= slices(all@).subrange(range_start as int, range_end as int));
        assert forall|j: int| 0 <= j < rows@.len() implies (#[trigger] rows@[j])@.len() >= 2 by {
            assert(rows@[j] == all@[range_start + j]);
        }
    }
    write_rows(page, &rows, 0, 0);
}

/// The rows of which the index is not listed.
pub open spec fn without_all(rows: Seq<Seq<u8>>, skip: Seq<usize>, m: int) -> Seq<Seq<u8>>
    decreases m,
{
    if m <= 0 {
        Seq::empty()
    } else if skip.contains((m - 1) as usize) {
        without_all(rows, skip, m - 1)
    } else {
        without_all(rows, skip, m - 1).push(rows[m - 1])
    }
}

proof fn without_all_long(rows: Seq<Seq<u8>>, skip: Seq<usize>, m: int, n: int)
    requires
        long_cells(rows, n),
        m <= rows.len(),
    ensures
        long_cells(without_all(rows, skip, m), n),
    decreases m,
{
    if m > 0 {
        without_all_long(rows, skip, m - 1, n);
        assert(rows[m - 1].len() >= n);
    }
}

/// Makes `page` a leaf, outside any chain, with the rows of `snapshot` except
/// those at the given indices, which ascend.
pub fn write_leaf_without_multiple(page: &mut Page, snapshot: &Page, skip_indices: &[usize])
    requires
        leaf_ok(snapshot.data@),
        forall|i: int, j: int|
            0 <= i < j < skip_indices@.len() ==> skip_indices@[i] < skip_indices@[j],
    ensures
        leaf_ok(final(page).data@),
        page::trimmed(snapshot.data@) ==> page::trimmed(final(page).data@),
        cells(final(page).data@) == without_all(
            cells(snapshot.data@),
            skip_indices@,
            page::count_of(snapshot.data@) as int,
        ),
        row_leaf(snapshot.data@) ==> row_leaf(final(page).data@),
        page::next_of(final(page).data@) == 0,
        page::prev_of(final(page).data@) == 0,
        page::magic_of(final(page).data@) == page::magic_of(old(page).data@),
        page::flags_of(final(page).data@) == PAGE_LEAF,
{
    proof {
        reveal(leaf_ok);
    }
    let all: Vec<&[u8]> = rows_of(snapshot);
    let n: usize = all.len();
    let ghost cs = cells(snapshot.data@);
    let mut rows: Vec<&[u8]> = Vec::new();
    let mut i: usize = 0;
    let mut skip: usize = 0;
    proof {
        leaf_total(snapshot.data@);
        assert(cs.take(0) =~= Seq::empty());
    }
    while i < n
        invariant
            i <= n == all@.len() == cs.len(),
            cs == slices(all@),
            skip <= skip_indices@.len(),
            forall|a: int, b: int|
                0 <= a < b < skip_indices@.len() ==> skip_indices@[a] < skip_indices@[b],
            forall|k: int| 0 <= k < skip ==> skip_indices@[k] < i,
            skip < skip_indices@.len() ==> skip_indices@[skip as int] >= i,
            slices(rows@) =~= without_all(cs, skip_indices@, i as int),
            rows@.len() <= i,
            total_len(slices(rows@)) <= total_len(cs.take(i as int)),
            forall|j: int| 0 <= j < cs.len() ==> (#[trigger] cs[j]).len() >= 2,
            forall|j: int| 0 <= j < rows@.len() ==> (#[trigger] rows@[j])@.len() >= 2,
        decreases n - i,
    {
        proof {
            reveal(leaf_ok);
        }
        proof {
            total_len_take(cs, i as int);
        }
        if skip < skip_indices.len() && skip_indices[skip] == i {
            assert(skip_indices@.contains(i));
            if skip + 1 < skip_indices.len() {
                assert(skip_indices@[skip as int] < skip_indices@[skip + 1]);
            }
            skip += 1;
        } else {
            assert(!skip_indices@.contains(i)) by {
                if skip_indices@.contains(i) {
                    let k = choose|k: int| 0 <= k < skip_indices@.len() && skip_indices@[k] == i;
                    if k > skip {
                        assert(skip_indices@[skip as int] < skip_indices@[k]);
                    }
                }
            }
            let ghost before = rows@;
            rows.push(all[i]);
            proof {
                assert(slices(rows@) =~= slices(before).push(cs[i as int]));
                total_len_push(slices(before), cs[i as int]);
            }
        }
        i += 1;
    }
    assert(cs.take(n as int) =~= cs);
    proof {
        if row_leaf(snapshot.data@) {
            without_all_long(cs, skip_indices@, n as int, 8);
        }
    }
    proof {
        trimmed_fits(snapshot.data@);
    }
    write_rows(page, &rows, 0, 0);
}

/// The rows with those at the listed indices replaced.
pub open spec fn with_replaced(rows: Seq<Seq<u8>>, repl: Seq<(usize, Seq<u8>)>) -> Seq<Seq<u8>>
    decreases repl.len(),
{
    if repl.len() == 0 {
        rows
    } else {
        with_replaced(rows, repl.drop_last()).update(repl.last().0 as int, repl.last().1)
    }
}

proof fn with_replaced_long(rows: Seq<Seq<u8>>, repl: Seq<(usize, Seq<u8>)>, n: int)
    requires
        long_cells(rows, n),
        forall|i: int| 0 <= i < repl.len() ==> (#[trigger] repl[i]).1.len() >= n,
        forall|i: int| 0 <= i < repl.len() ==> (#[trigger] repl[i]).0 < rows.len(),
    ensures
        long_cells(with_replaced(rows, repl), n),
        with_replaced(rows, repl).len() == rows.len(),
    decreases repl.len(),
{
    if repl.len() > 0 {
        let d = repl.drop_last();
        assert forall|i: int| 0 <= i < d.len() implies #[trigger] d[i] == repl[i] by {}
        with_replaced_long(rows, d, n);
        assert(repl[repl.len() - 1].1.len() >= n);
    }
}

/// What replacements hold.
pub open spec fn repl_view(repl: Seq<(usize, &[u8])>) -> Seq<(usize, Seq<u8>)> {
    repl.map_values(|r: (usize, &[u8])| (r.0, r.1@))
}

/// Makes `page` the leaf `snapshot` with some rows replaced, and seals it with a
/// checksum. Does nothing and returns `false` if the rows would not fit.
pub fn write_leaf_with_replacements(
    page: &mut Page,
    snapshot: &Page,
    replacements: &[(usize, &[u8])],
) -> (fits: bool)
    requires
        leaf_ok(snapshot.data@),
        forall|i: int|
            0 <= i < replacements@.len() ==> (#[trigger] replacements@[i]).0 < page::count_of(
                snapshot.data@,
            ) && replacements@[i].1@.len() >= 2,
    ensures
        fits == rows_fit(
            with_replaced(cells(snapshot.data@), repl_view(replacements@)),
            4092,
        ),
        !fits ==> *final(page) == *old(page),
        fits ==> {
            &&& leaf_ok(final(page).data@)
            &&& cells(final(page).data@) == with_replaced(
                cells(snapshot.data@),
                repl_view(replacements@),
            )
            &&& row_leaf(snapshot.data@) && (forall|i: int|
                0 <= i < replacements@.len() ==> (#[trigger] replacements@[i]).1@.len() >= 8)
                ==> row_leaf(final(page).data@)
            &&& page::next_of(final(page).data@) == page::next_of(snapshot.data@)
            &&& page::prev_of(final(page).data@) == page::prev_of(snapshot.data@)
            &&& page::magic_of(final(page).data@) == page::magic_of(old(page).data@)
            &&& page::flags_of(final(page).data@) == PAGE_LEAF
            &&& page::checksum_ok(final(page).data@)
        },
{
    replace_within(page, snapshot, replacements, CHECKSUM_OFFSET)
}

/// As [`write_leaf_with_replacements`], with the place where the contents of the
/// page have to end.
pub fn replace_within(
    page: &mut Page,
    snapshot: &Page,
    replacements: &[(usize, &[u8])],
    cap: usize,
) -> (fits: bool)
    requires
        leaf_ok(snapshot.data@),
        cap == 4068 || cap == 4092,
        forall|i: int|
            0 <= i < replacements@.len() ==> (#[trigger] replacements@[i]).0 < page::count_of(
                snapshot.data@,
            ) && replacements@[i].1@.len() >= 2,
    ensures
        fits == rows_fit(
            with_replaced(cells(snapshot.data@), repl_view(replacements@)),
            cap as int,
        ),
        !fits ==> *final(page) == *old(page),
        fits ==> {
            &&& leaf_ok(final(page).data@)
            &&& snug(final(page).data@)
            &&& cells(final(page).data@) == with_replaced(
                cells(snapshot.data@),
                repl_view(replacements@),
            )
            &&& row_leaf(snapshot.data@) && (forall|i: int|
                0 <= i < replacements@.len() ==> (#[trigger] replacements@[i]).1@.len() >= 8)
                ==> row_leaf(final(page).data@)
            &&& page::next_of(final(page).data@) == page::next_of(snapshot.data@)
            &&& page::prev_of(final(page).data@) == page::prev_of(snapshot.data@)
            &&& page::magic_of(final(page).data@) == page::magic_of(old(page).data@)
            &&& page::flags_of(final(page).data@) == PAGE_LEAF
            &&& page::checksum_ok(final(page).data@)
        },
{
    proof {
        reveal(leaf_ok);
    }
    let mut rows: Vec<&[u8]> = rows_of(snapshot);
    let n: usize = rows.len();
    let ghost cs = cells(snapshot.data@);
    let ghost repl = repl_view(replacements@);
    proof {
        leaf_total(snapshot.data@);
        assert(repl.take(0) =~= Seq::empty());
        assert forall|j: int| 0 <= j < n implies (#[trigger] rows@[j])@.len() >= 2 by {
            assert(slices(rows@)[j] == cs[j]);
        }
    }
    let mut i: usize = 0;
    while i < replacements.len()
        invariant
            i <= replacements@.len(),
            rows@.len() == n,
            repl == repl_view(replacements@),
            forall|k: int|
                0 <= k < replacements@.len() ==> (#[trigger] replacements@[k]).0 < n
                    && replacements@[k].1@.len() >= 2,
            slices(rows@) == with_replaced(cs, repl.take(i as int)),
            forall|j: int| 0 <= j < n ==> (#[trigger] rows@[j])@.len() >= 2,
        decreases replacements@.len() - i,
    {
        proof {
            reveal(leaf_ok);
        }
        let r: (usize, &[u8]) = replacements[i];
        let ghost before = rows@;
        rows.set(r.0, r.1);
        proof {
            assert(slices(rows@) =~= slices(before).update(r.0 as int, r.1@));
            assert(repl.take(i + 1).drop_last() =~= repl.take(i as int));
            assert(repl.take(i + 1).last() == (r.0, r.1@));
        }
        i += 1;
    }
    assert(repl.take(i as int) =~= repl);
    let ghost all = slices(rows@);
    // the size of all rows, as far as it stays below a page
    let mut size: usize = PAGE_HEADER_SIZE + n * 2;
    let mut k: usize = 0;
    assert(all.take(0) =~= Seq::empty());
    while k < n
        invariant
            k <= n == rows@.len() == all.len(),
            all == slices(rows@),
            all == with_replaced(cells(snapshot.data@), repl_view(replacements@)),
            size == 16 + 2 * n + total_len(all.take(k as int)),
            cap <= 4092,
            size <= cap || k == 0,
        decreases n - k,
    {
        proof {
            reveal(leaf_ok);
        }
        let len: usize = rows[k].len();
        proof {
            total_len_take(all, k as int);
            total_len_take(all, k + 1);
        }
        if size > cap || len > cap - size {
            return false;
        }
        size += len;
        k += 1;
    }
    assert(all.take(n as int) =~= all);
    if size > cap {
        return false;
    }
    write_rows(page, &rows, snapshot.next_leaf(), snapshot.prev_leaf());
    let ghost s0 = page.data@;
    page.update_checksum();
    proof {
        sealed_leaf(s0, page.data@);
        page::trimmed_same(s0, page.data@);
        if row_leaf(snapshot.data@) && (forall|i: int|
            0 <= i < replacements@.len() ==> (#[trigger] replacements@[i]).1@.len() >= 8) {
            assert forall|i: int| 0 <= i < repl.len() implies (#[trigger] repl[i]).1.len() >= 8 && repl[i].0
                < n by {
                assert(replacements@[i].1@.len() >= 8);
            }
            with_replaced_long(cs, repl, 8);
        }
    }
    true
}

/// A new checksum or back pointer does not change what node a page holds.
pub proof fn sealed_leaf(a: Seq<u8>, b: Seq<u8>)
    requires
        a.len() == 4096,
        b.len() == 4096,
        forall|i: int| 0 <= i < 4092 && !(12 <= i < 16) ==> a[i] == b[i],
    ensures
        leaf_ok(a) == leaf_ok(b),
        branch_ok(a) == branch_ok(b),
        leaf_ok(a) ==> cells(a) == cells(b),
        branch_ok(a) ==> children_of(a) == children_of(b) && keys_of(a) == keys_of(b),
        page::next_of(a) == page::next_of(b),
        node_of(a) == node_of(b),
{
    same_body(a, b);
    page::agree_at(a, b, 8);
}

/// New chain pointers and a new checksum leave the rows of a leaf and the
/// entries of a branch as they are.
pub proof fn same_body(a: Seq<u8>, b: Seq<u8>)
    requires
        a.len() == 4096,
        b.len() == 4096,
        forall|i: int| 0 <= i < 4092 && !(8 <= i < 16) ==> a[i] == b[i],
    ensures
        leaf_ok(a) == leaf_ok(b),
        branch_ok(a) == branch_ok(b),
        leaf_ok(a) ==> cells(a) == cells(b),
        branch_ok(a) ==> children_of(a) == children_of(b) && keys_of(a) == keys_of(b),
{
    reveal(leaf_ok);
    page::agree_at(a, b, 2);
    page::agree_at(a, b, 4);
    page::agree_at(a, b, 6);
    if 16 + 2 * page::count_of(a) <= 4092 {
        assert forall|i: int| 0 <= i < page::count_of(a) implies #[trigger] page::slot_of(a, i)
            == page::slot_of(b, i) by {
            page::agree_at(a, b, 16 + 2 * i);
        }
        assert forall|i: int| 0 <= i <= page::count_of(a) implies #[trigger] row_at(a, i) == row_at(
            b,
            i,
        ) by {
            if i < page::count_of(a) {
                assert(page::slot_of(a, i) == page::slot_of(b, i));
            }
        }
        assert(row_at(a, 0) == row_at(b, 0));
        if leaf_ok(a) {
            assert forall|i: int| 0 <= i < page::count_of(b) implies #[trigger] row_ok(b, i) by {
                assert(row_ok(a, i));
                assert(row_at(a, i + 1) == row_at(b, i + 1));
                assert(page::slot_of(a, i) == page::slot_of(b, i));
            }
        }
        if leaf_ok(b) {
            assert forall|i: int| 0 <= i < page::count_of(a) implies #[trigger] row_ok(a, i) by {
                assert(row_ok(b, i));
                assert(row_at(a, i + 1) == row_at(b, i + 1));
                assert(page::slot_of(a, i) == page::slot_of(b, i));
            }
        }
        if leaf_ok(a) {
            assert forall|i: int| 0 <= i < page::count_of(a) implies cells(a)[i] == #[trigger] cells(
                b,
            )[i] by {
                row_at_ascends(a, i, i + 1);
                assert(row_at(a, i) == row_at(b, i) && row_at(a, i + 1) == row_at(b, i + 1));
                assert(cell(a, i) =~= cell(b, i));
            }
            assert(cells(a) =~= cells(b));
        }
    }
    if branch_ok(a) {
        assert forall|i: int| 0 <= i <= page::count_of(a) implies #[trigger] bytes::get_u32(
            a,
            16 + 12 * i,
        ) == bytes::get_u32(b, 16 + 12 * i) by {
            page::agree_at(a, b, 16 + 12 * i);
        }
        assert forall|i: int| 0 <= i < page::count_of(a) implies #[trigger] bytes::get_u64(
            a,
            20 + 12 * i,
        ) == bytes::get_u64(b, 20 + 12 * i) by {
            page::agree_at(a, b, 20 + 12 * i);
        }
        assert(children_of(a) =~= children_of(b));
        assert(keys_of(a) =~= keys_of(b));
    }
}

// ---------------------------------------------------------------------------
// Splitting leaves
// ---------------------------------------------------------------------------

/// Both parts fit when the rows are parted at `m`.
pub open spec fn parts_fit(rows: Seq<Seq<u8>>, m: int, cap: int) -> bool {
    &&& 1 <= m < rows.len()
    &&& rows_fit(rows.take(m), cap)
    &&& rows_fit(rows.skip(m), cap)
}

/// `m` is the largest number of rows that fit on the left (at least one row).
pub open spec fn widest(rows: Seq<Seq<u8>>, m: int, cap: int) -> bool {
    &&& 1 <= m < rows.len()
    &&& m == 1 || rows_fit(rows.take(m), cap)
    &&& forall|k: int| m < k < rows.len() ==> !rows_fit(#[trigger] rows.take(k), cap)
}

/// Where rows are parted: with the widest left part if the right part fits too,
/// else at the first place where both fit, else in the middle.
pub open spec fn parted_at(rows: Seq<Seq<u8>>, m: int, cap: int) -> bool {
    ||| widest(rows, m, cap) && rows_fit(rows.skip(m), cap)
    ||| {
        &&& forall|b: int| #[trigger] widest(rows, b, cap) ==> !rows_fit(rows.skip(b), cap)
        &&& parts_fit(rows, m, cap)
        &&& forall|k: int| 1 <= k < m ==> !#[trigger] parts_fit(rows, k, cap)
    }
    ||| {
        &&& forall|b: int| #[trigger] widest(rows, b, cap) ==> !rows_fit(rows.skip(b), cap)
        &&& forall|k: int| !#[trigger] parts_fit(rows, k, cap)
        &&& m == rows.len() / 2
    }
}

/// The length of the rows behind the first `m`.
pub proof fn total_len_skip(rows: Seq<Seq<u8>>, m: int)
    requires
        0 <= m <= rows.len(),
    ensures
        total_len(rows.skip(m)) == total_len(rows) - total_len(rows.take(m)),
{
    assert(rows =~= rows.take(m) + rows.skip(m));
    total_len_concat(rows.take(m), rows.skip(m));
}

/// The lengths of the first 0, 1, 2, .. rows.
fn running_lengths(rows: &Vec<&[u8]>) -> (pre: Vec<usize>)
    requires
        total_len(slices(rows@)) <= 65536,
    ensures
        pre@.len() == rows@.len() + 1,
        forall|i: int|
            0 <= i <= rows@.len() ==> #[trigger] pre@[i] == total_len(slices(rows@).take(i)),
{
    let ghost all = slices(rows@);
    let mut pre: Vec<usize> = Vec::new();
    let mut sum: usize = 0;
    assert(all.take(0) =~= Seq::empty());
    pre.push(0);
    let n: usize = rows.len();
    let mut i: usize = 0;
    while i < n
        invariant
            i <= n == rows@.len() == all.len(),
            all == slices(rows@),
            total_len(all) <= 65536,
            pre@.len() == i + 1,
            sum == total_len(all.take(i as int)),
            forall|j: int| 0 <= j <= i ==> #[trigger] pre@[j] == total_len(all.take(j)),
        decreases n - i,
    {
        let len: usize = rows[i].len();
        proof {
            total_len_take(all, i as int);
            total_len_take(all, i + 1);
            assert(all[i as int].len() == len);
        }
        sum += len;
        pre.push(sum);
        i += 1;
    }
    pre
}

/// Where to part the rows of `snapshot` with a new row at `insert_pos` so that
/// both parts fit into a leaf.
pub fn find_overflow_split_point(snapshot: &Page, insert_pos: usize, new_row: &[u8]) -> (mid: usize)
    requires
        leaf_ok(snapshot.data@),
        1 <= page::count_of(snapshot.data@),
        insert_pos <= page::count_of(snapshot.data@),
        2 <= new_row@.len() <= 4074,
    ensures
        1 <= mid <= page::count_of(snapshot.data@),
        parted_at(cells(snapshot.data@).insert(insert_pos as int, new_row@), mid as int, 4092),
{
    split_within(snapshot, insert_pos, new_row, CHECKSUM_OFFSET)
}

/// As [`find_overflow_split_point`], with the place where the contents of the
/// pages have to end.
pub fn split_within(snapshot: &Page, insert_pos: usize, new_row: &[u8], cap: usize) -> (mid: usize)
    requires
        leaf_ok(snapshot.data@),
        1 <= page::count_of(snapshot.data@),
        insert_pos <= page::count_of(snapshot.data@),
        2 <= new_row@.len() <= 4074,
        cap <= 4092,
    ensures
        1 <= mid <= page::count_of(snapshot.data@),
        parted_at(cells(snapshot.data@).insert(insert_pos as int, new_row@), mid as int, cap as int),
{
    proof {
        reveal(leaf_ok);
    }
    let rows: Vec<&[u8]> = rows_with_insert(snapshot, insert_pos, new_row);
    let ghost all = slices(rows@);
    let total: usize = rows.len();
    proof {
        leaf_total(snapshot.data@);
        total_len_insert(cells(snapshot.data@), insert_pos as int, new_row@);
    }
    let pre: Vec<usize> = running_lengths(&rows);
    assert(all.take(total as int) =~= all);
    assert(pre@[total as int] == total_len(all));
    let mut best: usize = 1;
    let mut m: usize = 1;
    while m < total
        invariant_except_break
            best <= m,
            m == 1 || best == m - 1,
        invariant
            1 <= best < total,
            1 <= m <= total == all.len() == rows@.len(),
            total <= 4096,
            cap <= 4092,
            total_len(all) <= 65536,
            pre@.len() == total + 1,
            forall|j: int| 0 <= j <= total ==> #[trigger] pre@[j] == total_len(all.take(j)),
            best == 1 || rows_fit(all.take(best as int), cap as int),
        ensures
            widest(all, best as int, cap as int),
        decreases total - m,
    {
        proof {
            reveal(leaf_ok);
        }
        proof {
            total_len_take(all, m as int);
        }
        assert(pre@[m as int] == total_len(all.take(m as int)));
        if PAGE_HEADER_SIZE + m * 2 + pre[m] <= cap {
            best = m;
        } else {
            proof {
                assert forall|k: int| best < k < total implies !rows_fit(#[trigger] all.take(k), cap as int) by {
                    if m <= k {
                        take_monotone(all, m as int, k);
                    }
                }
            }
            break;
        }
        m += 1;
    }
    proof {
        total_len_skip(all, best as int);
        total_len_take(all, best as int);
    }
    assert(pre@[best as int] == total_len(all.take(best as int)));
    let rest: usize = pre[total] - pre[best];
    proof {
        assert forall|b: int| #[trigger] widest(all, b, cap as int) implies b == best by {
            if b < best {
                assert(!rows_fit(all.take(best as int), cap as int));
            } else if best < b {
                assert(!rows_fit(all.take(b), cap as int));
            }
        }
    }
    if PAGE_HEADER_SIZE + (total - best) * 2 + rest <= cap {
        return best;
    }
    assert(!rows_fit(all.skip(best as int), cap as int));
    let mut mid: usize = 1;
    while mid < total
        invariant
            1 <= mid <= total == all.len() == rows@.len(),
            total <= 4096,
            cap <= 4092,
            all == cells(snapshot.data@).insert(insert_pos as int, new_row@),
            all.len() == page::count_of(snapshot.data@) + 1,
            total_len(all) <= 65536,
            pre@.len() == total + 1,
            forall|j: int| 0 <= j <= total ==> #[trigger] pre@[j] == total_len(all.take(j)),
            forall|b: int| #[trigger] widest(all, b, cap as int) ==> !rows_fit(all.skip(b), cap as int),
            forall|k: int| 1 <= k < mid ==> !#[trigger] parts_fit(all, k, cap as int),
        decreases total - mid,
    {
        proof {
            reveal(leaf_ok);
        }
        proof {
            total_len_skip(all, mid as int);
            total_len_take(all, mid as int);
            assert(all.take(total as int) =~= all);
        }
        assert(pre@[mid as int] == total_len(all.take(mid as int)));
        assert(pre@[total as int] == total_len(all));
        let left: usize = PAGE_HEADER_SIZE + mid * 2 + pre[mid];
        let right: usize = PAGE_HEADER_SIZE + (total - mid) * 2 + (pre[total] - pre[mid]);
        if left <= cap && right <= cap {
            return mid;
        }
        mid += 1;
    }
    assert forall|k: int| !#[trigger] parts_fit(all, k, cap as int) by {
        if 1 <= k < total {
            assert(!parts_fit(all, k, cap as int));
        }
    }
    total / 2
}

/// The length of the first `mid` rows of `snapshot` with a new row at
/// `insert_pos`.
pub fn left_size(snapshot: &Page, insert_pos: usize, new_row: &[u8], mid: usize) -> (n: usize)
    requires
        leaf_ok(snapshot.data@),
        insert_pos <= page::count_of(snapshot.data@),
        mid <= page::count_of(snapshot.data@) + 1,
        2 <= new_row@.len() <= 4074,
    ensures
        n == total_len(
            cells(snapshot.data@).insert(insert_pos as int, new_row@).take(mid as int),
        ),
{
    let rows: Vec<&[u8]> = rows_with_insert(snapshot, insert_pos, new_row);
    proof {
        leaf_total(snapshot.data@);
        leaf_bounds(snapshot.data@);
        total_len_insert(cells(snapshot.data@), insert_pos as int, new_row@);
    }
    let pre: Vec<usize> = running_lengths(&rows);
    pre[mid]
}

/// More rows take no less room.
pub proof fn take_monotone(rows: Seq<Seq<u8>>, a: int, b: int)
    requires
        0 <= a <= b <= rows.len(),
    ensures
        total_len(rows.take(a)) <= total_len(rows.take(b)),
        forall|cap: int| rows_fit(rows.take(b), cap) ==> #[trigger] rows_fit(rows.take(a), cap),
{
    total_len_take(rows.take(b), a);
    assert(rows.take(b).take(a) =~= rows.take(a));
}

/// The id of the row at `virtual_pos` of `snapshot` with a new row at
/// `insert_pos`.
pub fn extract_id_at_virtual_pos(
    snapshot: &Page,
    insert_pos: usize,
    new_row: &[u8],
    virtual_pos: usize,
) -> (id: u64)
    requires
        row_leaf(snapshot.data@),
        insert_pos <= page::count_of(snapshot.data@),
        virtual_pos <= page::count_of(snapshot.data@),
        new_row@.len() >= 8,
    ensures
        id == id_of(cells(snapshot.data@).insert(insert_pos as int, new_row@)[virtual_pos as int]),
{
    proof {
        reveal(leaf_ok);
    }
    if virtual_pos == insert_pos {
        read_u64(new_row, 0)
    } else {
        let orig: usize = if virtual_pos < insert_pos {
            virtual_pos
        } else {
            virtual_pos - 1
        };
        let row: &[u8] = leaf_row(snapshot, orig);
        proof {
            leaf_total(snapshot.data@);
            assert(cells(snapshot.data@)[orig as int] == row@);
        }
        read_u64(row, 0)
    }
}

// ---------------------------------------------------------------------------
// Branches
// ---------------------------------------------------------------------------

/// Whether a page is a well-formed branch.
pub fn check_branch(page: &Page) -> (r: bool)
    ensures
        r == branch_ok(page.data@),
{
    if page.is_leaf() || !page.is_branch() {
        return false;
    }
    page.num_rows() as usize <= MAX_BRANCH_KEYS
}

/// Child `idx` of a branch.
pub fn get_branch_child(page: &Page, idx: usize) -> (c: u32)
    requires
        branch_ok(page.data@),
        idx <= page::count_of(page.data@),
    ensures
        c == children_of(page.data@)[idx as int],
{
    let offset: usize = PAGE_HEADER_SIZE + idx * BRANCH_ENTRY_SIZE;
    read_u32(page.data.as_slice(), offset)
}

/// Key `idx` of a branch.
pub fn get_branch_key(page: &Page, idx: usize) -> (k: u64)
    requires
        branch_ok(page.data@),
        idx < page::count_of(page.data@),
    ensures
        k == keys_of(page.data@)[idx as int],
{
    let offset: usize = PAGE_HEADER_SIZE + idx * BRANCH_ENTRY_SIZE + 4;
    read_u64(page.data.as_slice(), offset)
}

/// The child of a branch that holds `rowid`, with its index.
pub fn find_child(page: &Page, rowid: u64) -> (r: (usize, u32))
    requires
        branch_ok(page.data@),
    ensures
        r.0 == tree::route(keys_of(page.data@), rowid),
        r.0 <= page::count_of(page.data@),
        r.1 == children_of(page.data@)[r.0 as int],
{
    let n: usize = page.num_rows() as usize;
    let mut i: usize = 0;
    while i < n
        invariant
            i <= n == page::count_of(page.data@),
            branch_ok(page.data@),
            forall|j: int| 0 <= j < i ==> rowid >= #[trigger] keys_of(page.data@)[j],
        decreases n - i,
    {
        let key: u64 = get_branch_key(page, i);
        if rowid < key {
            proof {
                tree::route_unique(keys_of(page.data@), rowid, i as int);
            }
            return (i, get_branch_child(page, i));
        }
        i += 1;
    }
    proof {
        tree::route_unique(keys_of(page.data@), rowid, n as int);
    }
    (n, get_branch_child(page, n))
}

/// Writes entry `idx` of a branch.
pub fn write_branch_entry(page: &mut Page, idx: usize, child: u32, key: u64)
    requires
        idx < 339,
    ensures
        page::same_but(old(page).data@, final(page).data@, 16 + 12 * idx, 12),
        bytes::get_u32(final(page).data@, 16 + 12 * idx) == child,
        bytes::get_u64(final(page).data@, 20 + 12 * idx) == key,
{
    let offset: usize = PAGE_HEADER_SIZE + idx * BRANCH_ENTRY_SIZE;
    page.put_u32(offset, child);
    let ghost mid = page.data@;
    page.put_u64(offset + 4, key);
    proof {
        page::agree_at(mid, page.data@, offset as int);
    }
}

/// Writes child `idx` of a branch.
pub fn set_branch_child(page: &mut Page, idx: usize, child: u32)
    requires
        idx <= 339,
    ensures
        page::same_but(old(page).data@, final(page).data@, 16 + 12 * idx, 4),
        bytes::get_u32(final(page).data@, 16 + 12 * idx) == child,
{
    let offset: usize = PAGE_HEADER_SIZE + idx * BRANCH_ENTRY_SIZE;
    page.put_u32(offset, child);
}

/// The children and keys of a branch.
pub fn collect_branch_flat(page: &Page) -> (r: (Vec<u32>, Vec<u64>))
    requires
        branch_ok(page.data@),
    ensures
        r.0@ == children_of(page.data@),
        r.1@ == keys_of(page.data@),
{
    let n: usize = page.num_rows() as usize;
    let mut children: Vec<u32> = Vec::new();
    let mut keys: Vec<u64> = Vec::new();
    let mut i: usize = 0;
    while i < n
        invariant
            i <= n == page::count_of(page.data@),
            branch_ok(page.data@),
            children@.len() == i,
            keys@.len() == i,
            forall|j: int| 0 <= j < i ==> #[trigger] children@[j] == children_of(page.data@)[j],
            forall|j: int| 0 <= j < i ==> #[trigger] keys@[j] == keys_of(page.data@)[j],
        decreases n - i,
    {
        children.push(get_branch_child(page, i));
        keys.push(get_branch_key(page, i));
        i += 1;
    }
    children.push(get_branch_child(page, n));
    assert(children@ =~= children_of(page.data@));
    assert(keys@ =~= keys_of(page.data@));
    (children, keys)
}

/// Makes `page` a branch with the given children and keys.
pub fn rebuild_branch_flat(page: &mut Page, children: &[u32], keys: &[u64])
    requires
        keys@.len() <= 339,
        children@.len() == keys@.len() + 1,
    ensures
        keys@.len() <= 337 ==> page::trimmed(final(page).data@),
        branch_ok(final(page).data@),
        children_of(final(page).data@) == children@,
        keys_of(final(page).data@) == keys@,
        page::magic_of(final(page).data@) == page::magic_of(old(page).data@),
{
    let n: usize = keys.len();
    page.set_flags(PAGE_BRANCH);
    page.set_num_rows(n as u16);
    let ghost head = page.data@;
    page.clear_body();
    let mut i: usize = 0;
    while i < n
        invariant
            i <= n == keys@.len() <= 339,
            children@.len() == n + 1,
            page::same_but(head, page.data@, 16, 4076),
            head.len() == 4096,
            n <= 337 ==> page::tail_clear(page.data@),
            forall|j: int|
                0 <= j < i ==> #[trigger] bytes::get_u32(page.data@, 16 + 12 * j) == children@[j],
            forall|j: int|
                0 <= j < i ==> #[trigger] bytes::get_u64(page.data@, 20 + 12 * j) == keys@[j],
        decreases n - i,
    {
        let ghost before = page.data@;
        write_branch_entry(page, i, children[i], keys[i]);
        proof {
            assert forall|j: int| 0 <= j < i + 1 implies #[trigger] bytes::get_u32(
                page.data@,
                16 + 12 * j,
            ) == children@[j] by {
                if j < i {
                    page::agree_at(before, page.data@, 16 + 12 * j);
                    assert(bytes::get_u32(before, 16 + 12 * j) == children@[j]);
                }
            }
            assert forall|j: int| 0 <= j < i + 1 implies #[trigger] bytes::get_u64(
                page.data@,
                20 + 12 * j,
            ) == keys@[j] by {
                if j < i {
                    page::agree_at(before, page.data@, 20 + 12 * j);
                    assert(bytes::get_u64(before, 20 + 12 * j) == keys@[j]);
                }
            }
        }
        i += 1;
    }
    let ghost before = page.data@;
    set_branch_child(page, n, children[n]);
    proof {
        page::trimmed_means(page.data@);
        page::same_but_fields(head, page.data@, 16, 4076);
        assert(2u16 & 1u16 == 0) by (bit_vector);
        assert(2u16 & 2u16 != 0) by (bit_vector);
        assert forall|j: int| 0 <= j <= n implies #[trigger] bytes::get_u32(
            page.data@,
            16 + 12 * j,
        ) == children@[j] by {
            if j < n {
                page::agree_at(before, page.data@, 16 + 12 * j);
                assert(bytes::get_u32(before, 16 + 12 * j) == children@[j]);
            }
        }
        assert forall|j: int| 0 <= j < n implies #[trigger] bytes::get_u64(
            page.data@,
            20 + 12 * j,
        ) == keys@[j] by {
            page::agree_at(before, page.data@, 20 + 12 * j);
            assert(bytes::get_u64(before, 20 + 12 * j) == keys@[j]);
        }
        assert(children_of(page.data@) =~= children@);
        assert(keys_of(page.data@) =~= keys@);
    }
}

/// Adds a child behind child `child_idx` of a branch, parted from it by `key`.
pub fn insert_branch_entry(page: &mut Page, child_idx: usize, key: u64, new_child: u32)
    requires
        branch_ok(old(page).data@),
        page::count_of(old(page).data@) < 339,
        child_idx <= page::count_of(old(page).data@),
    ensures
        page::count_of(old(page).data@) < 337 ==> page::trimmed(final(page).data@),
        branch_ok(final(page).data@),
        children_of(final(page).data@) == children_of(old(page).data@).insert(
            child_idx + 1,
            new_child,
        ),
        keys_of(final(page).data@) == keys_of(old(page).data@).insert(child_idx as int, key),
        page::magic_of(final(page).data@) == page::magic_of(old(page).data@),
{
    let (mut children, mut keys) = collect_branch_flat(page);
    keys.insert(child_idx, key);
    children.insert(child_idx + 1, new_child);
    rebuild_branch_flat(page, children.as_slice(), keys.as_slice());
}

/// A new leaf holds no rows.
pub proof fn empty_leaf(s: Seq<u8>)
    requires
        s.len() == 4096,
        page::flags_of(s) == PAGE_LEAF,
        page::count_of(s) == 0,
        page::free_of(s) == 16,
        page::tail_clear(s),
    ensures
        page::trimmed(s),
        row_leaf(s),
        cells(s).len() == 0,
        node_of(s) == (Node::<u64, Seq<u8>>::Leaf {
            items: Seq::empty(),
            next: page::next_of(s),
        }),
{
    reveal(leaf_ok);
    page::trimmed_means(s);
    assert(1u16 & 1u16 != 0) by (bit_vector);
    assert(keyed(cells(s)) =~= Seq::empty());
}

/// A new branch with one key and two children.
pub proof fn two_children(
    p0: Seq<u8>,
    p1: Seq<u8>,
    p2: Seq<u8>,
    s: Seq<u8>,
    left: u32,
    right: u32,
    key: u64,
)
    requires
        p0.len() == 4096,
        page::tail_clear(p0),
        page::flags_of(p0) == PAGE_BRANCH,
        page::same_but(p0, p1, 16, 12),
        bytes::get_u32(p1, 16) == left,
        bytes::get_u64(p1, 20) == key,
        page::same_but(p1, p2, 28, 4),
        bytes::get_u32(p2, 28) == right,
        s.len() == 4096,
        forall|i: int| 0 <= i < 4092 && !(4 <= i < 6) ==> s[i] == p2[i],
        page::count_of(s) == 1,
    ensures
        node_of(s) == (Node::<u64, Seq<u8>>::Branch {
            children: seq![left, right],
            keys: seq![key],
        }),
        page::trimmed(s),
        branch_ok(s),
{
    page::trimmed_means(s);
    leaf_basics(s);
    page::agree_at(p0, p1, 2);
    page::agree_at(p1, p2, 2);
    page::agree_at(p2, s, 2);
    page::agree_at(p1, p2, 16);
    page::agree_at(p2, s, 16);
    page::agree_at(p1, p2, 20);
    page::agree_at(p2, s, 20);
    page::agree_at(p2, s, 28);
    assert(2u16 & 1u16 == 0) by (bit_vector);
    assert(2u16 & 2u16 != 0) by (bit_vector);
    assert(children_of(s) =~= seq![left, right]);
    assert(keys_of(s) =~= seq![key]);
}

}
