//! Writing row trees.

use crate::btree;
use crate::btree::{find_leaf_for_rowid, scan_rows, search_in, MAX_TREE_DEPTH};
use crate::btree_node;
use crate::btree_node::{
    check_branch, check_row_leaf, collect_branch_flat, extract_id_at_virtual_pos, find_child,
    find_insertion_point, insert_branch_entry, rebuild_branch_flat, split_within,
    set_branch_child, write_branch_entry, write_leaf_range, write_leaf_with_insert,
    write_leaf_without, BRANCH_ENTRY_SIZE,
};
use crate::bytes;
use crate::bytes::copy_slice;
use crate::error::{corruption, BoogyError, Result};
use crate::file;
use crate::file::WriteGuard;
use crate::overflow;
use crate::overflow::{
    append_overflow_trailer, build_overflow_page, has_overflow,
    OVERFLOW_TRAILER_SIZE,
};
use crate::page;
use crate::page::{Page, PAGE_HEADER_SIZE};
use crate::tree;
use crate::tree::Node;
use vstd::prelude::*;

verus! {

// ---------------------------------------------------------------------------
// Pages and nodes
// ---------------------------------------------------------------------------

/// The page is the same but for its back pointer and checksum.
pub open spec fn relinked(a: Seq<u8>, b: Seq<u8>) -> bool {
    &&& a.len() == 4096
    &&& b.len() == 4096
    &&& forall|i: int| 0 <= i < 4092 && !(12 <= i < 16) ==> a[i] == b[i]
}

/// Every page of `m` is in `m2` too.
pub open spec fn extends(m: Map<u32, Seq<u8>>, m2: Map<u32, Seq<u8>>) -> bool {
    forall|q: u32| #[trigger] m.contains_key(q) ==> m2.contains_key(q) && m2[q] == m[q]
}

/// A page that was not there before has a new number.
pub open spec fn fresh(m: Map<u32, Seq<u8>>, m2: Map<u32, Seq<u8>>, total: int) -> bool {
    forall|q: u32| #[trigger] m2.contains_key(q) ==> m.contains_key(q) || q >= total
}

/// Pages outside the tree below `p` are as they were, but for the back pointer
/// of the leaf that follows it.
pub open spec fn rest_kept(
    m: Map<u32, Seq<u8>>,
    m2: Map<u32, Seq<u8>>,
    p: u32,
    h: nat,
    end: u32,
) -> bool {
    forall|q: u32| #[trigger]
        m.contains_key(q) && !tree::owns(btree::view_of(m), p, h, q) ==> m2.contains_key(q) && (
        m2[q] == m[q] || (q == end && end != 0 && relinked(m[q], m2[q])))
}

/// A relinked page holds the same node.
pub proof fn relinked_node(a: Seq<u8>, b: Seq<u8>)
    requires
        relinked(a, b),
    ensures
        btree_node::node_of(a) == btree_node::node_of(b),
{
    btree_node::sealed_leaf(a, b);
}

/// What is kept as bytes is kept as nodes.
proof fn rest_kept_nodes(m: Map<u32, Seq<u8>>, m2: Map<u32, Seq<u8>>, p: u32, h: nat, end: u32)
    requires
        rest_kept(m, m2, p, h, end),
    ensures
        tree::kept(btree::view_of(m), btree::view_of(m2), p, h),
{
    let t = btree::view_of(m);
    let t2 = btree::view_of(m2);
    assert forall|q: u32| #[trigger] t.contains_key(q) && !tree::owns(t, p, h, q) implies t2.contains_key(q)
        && t2[q] == t[q] by {
        assert(m.contains_key(q));
        if m2[q] != m[q] {
            relinked_node(m[q], m2[q]);
        }
    }
}

// ---------------------------------------------------------------------------
// Rows that do not fit into a leaf
// ---------------------------------------------------------------------------

/// The most overflow pages that `n` bytes take.
pub open spec fn pages_for(n: int) -> int {
    (n + 4051) / 4052
}

/// Longest cell that is sure of its place: two leaves always have room for the
/// cells of one and another cell of this length.
pub const MAX_CELL: usize = 2000;

/// Longest cell of a leaf.
pub const MAX_OWN_CELL: usize = 4074;

/// A row that is always its own cell: it is short, and does not end as if with a
/// trailer.
pub open spec fn kept_whole(row: Seq<u8>) -> bool {
    row.len() <= MAX_CELL && !overflow::overflows(row)
}

/// A row that can be its own cell: a leaf can hold it, and it does not end as if with
/// a trailer.
pub open spec fn own_cell(row: Seq<u8>) -> bool {
    row.len() <= MAX_OWN_CELL && !overflow::overflows(row)
}

/// How many bytes of a row stay in the cell before a trailer.
pub open spec fn inline_len(len: int) -> int {
    if len <= 1991 {
        len
    } else {
        1991
    }
}

/// The length of the shortest cell that can stand for a row.
pub open spec fn cell_len(row: Seq<u8>) -> int {
    if kept_whole(row) {
        row.len() as int
    } else {
        inline_len(row.len() as int) + 9
    }
}

/// The cell is the start of a row and a trailer that leads to the rest.
pub open spec fn spilled(m: Map<u32, Seq<u8>>, cell: Seq<u8>, row: Seq<u8>) -> bool {
    let n = inline_len(row.len() as int);
    let remaining = overflow::trailer_remaining(cell) as nat;
    let first = overflow::trailer_page(cell);
    &&& cell.len() == n + 9
    &&& overflow::overflows(cell)
    &&& cell.take(n) == row.take(n)
    &&& remaining == row.len() - n
    &&& btree::chain(m, first, remaining, btree::chain_fuel(remaining)) == Some(row.skip(n))
    &&& btree::chain_apart(m, first, remaining, btree::chain_fuel(remaining))
}

/// The cell that stands for a row: the row itself, or its start and a trailer
/// that leads to the rest. In a tree that is to be encrypted (`tight`) it leads to
/// trimmed pages.
pub open spec fn stored(m: Map<u32, Seq<u8>>, cell: Seq<u8>, row: Seq<u8>, tight: bool) -> bool {
    &&& {
        ||| cell == row && own_cell(row)
        ||| !kept_whole(row) && spilled(m, cell, row)
    }
    &&& tight ==> btree::cell_trim(m, cell)
}

/// A stored row is read back as it was written, unless it is too long.
pub proof fn stored_expands(m: Map<u32, Seq<u8>>, cell: Seq<u8>, row: Seq<u8>, tight: bool)
    requires
        stored(m, cell, row, tight),
        row.len() <= btree::MAX_REASSEMBLE_SIZE,
    ensures
        btree::expand(m, cell) == Some(row),
{
    if spilled(m, cell, row) {
        let n = inline_len(row.len() as int);
        assert(cell.take(cell.len() - 9) + row.skip(n) =~= row) by {
            assert(cell.take(n) == row.take(n));
            assert(row.take(n) + row.skip(n) =~= row);
        }
    }
}

/// More fuel does not change a chain that was read to its end.
proof fn chain_more_fuel(m: Map<u32, Seq<u8>>, page: u32, left: nat, f: nat, g: nat)
    requires
        f <= g,
        btree::chain(m, page, left, f) is Some,
        btree::chain_apart(m, page, left, f),
    ensures
        btree::chain(m, page, left, g) == btree::chain(m, page, left, f),
        btree::chain_apart(m, page, left, g),
        btree::chain_trim(m, page, left, f) ==> btree::chain_trim(m, page, left, g),
    decreases f,
{
    if page != 0 && left != 0 {
        let part = overflow::payload_of(m[page]);
        let n: nat = if part.len() <= left {
            part.len()
        } else {
            left
        };
        chain_more_fuel(
            m,
            page::next_of(m[page]),
            (left - n) as nat,
            (f - 1) as nat,
            (g - 1) as nat,
        );
    }
}

/// A chain reads the same as long as the overflow pages are kept.
pub proof fn chain_kept(m: Map<u32, Seq<u8>>, m2: Map<u32, Seq<u8>>, page: u32, left: nat, f: nat)
    requires
        overflow_kept(m, m2),
        btree::chain_apart(m, page, left, f),
    ensures
        btree::chain(m2, page, left, f) == btree::chain(m, page, left, f),
        btree::chain_apart(m2, page, left, f),
        btree::chain_trim(m, page, left, f) ==> btree::chain_trim(m2, page, left, f),
    decreases f,
{
    if page != 0 && left != 0 {
        let part = overflow::payload_of(m[page]);
        let n: nat = if part.len() <= left {
            part.len()
        } else {
            left
        };
        assert(m.contains_key(page));
        chain_kept(m, m2, page::next_of(m[page]), (left - n) as nat, (f - 1) as nat);
    }
}

/// Overflow pages are as they were.
pub open spec fn overflow_kept(m: Map<u32, Seq<u8>>, m2: Map<u32, Seq<u8>>) -> bool {
    forall|q: u32| #[trigger]
        m.contains_key(q) && page::flags_of(m[q]) == page::PAGE_OVERFLOW ==> m2.contains_key(q)
            && m2[q] == m[q]
}

/// A stored row stays stored as long as the overflow pages are kept.
pub proof fn stored_kept(
    m: Map<u32, Seq<u8>>,
    m2: Map<u32, Seq<u8>>,
    cell: Seq<u8>,
    row: Seq<u8>,
    tight: bool,
)
    requires
        stored(m, cell, row, tight),
        overflow_kept(m, m2),
    ensures
        stored(m2, cell, row, tight),
{
    if spilled(m, cell, row) {
        let remaining = overflow::trailer_remaining(cell) as nat;
        chain_kept(
            m,
            m2,
            overflow::trailer_page(cell),
            remaining,
            btree::chain_fuel(remaining),
        );
    }
}

/// How many chunks some bytes make.
proof fn chunks(n: int, chunk: int)
    requires
        n >= 0,
        chunk == 4052 || chunk == 4076,
    ensures
        n > 0 ==> {
            let count = (n - 1) / chunk + 1;
            &&& count <= pages_for(n)
            &&& count * chunk >= n
            &&& (count - 1) * chunk < n
        },
{
    if n > 0 {
        let count = (n - 1) / chunk + 1;
        if chunk == 4052 {
            assert(count * 4052 >= n && (count - 1) * 4052 < n);
        } else {
            assert(count * 4076 >= n && (count - 1) * 4076 < n);
        }
    }
}

/// Where a chunk starts.
proof fn chunk_bounds(left: int, count: int, chunk: int, n: int)
    requires
        0 < left <= count,
        chunk == 4052 || chunk == 4076,
        (count - 1) * chunk < n <= count * chunk,
    ensures
        (left - 1) * chunk < n,
        left * chunk == (left - 1) * chunk + chunk,
        left < count ==> left * chunk < n,
{
    if chunk == 4052 {
        assert((left - 1) * 4052 <= (count - 1) * 4052);
        assert(left * 4052 == (left - 1) * 4052 + 4052);
    } else {
        assert((left - 1) * 4076 <= (count - 1) * 4076);
        assert(left * 4076 == (left - 1) * 4076 + 4076);
    }
}

/// Writes the end of a row to overflow pages, and returns its start with a
/// trailer.
#[verifier::rlimit(60)]
#[verifier::spinoff_prover]
fn write_overflow_row(guard: &mut WriteGuard, row_data: &[u8]) -> (r: Result<Vec<u8>>)
    requires
        old(guard).wf(),
        old(guard).total() >= 1,
        8 <= row_data@.len() <= u32::MAX,
        !kept_whole(row_data@),
    ensures
        r is Ok && file::tidy(old(guard).pages()) ==> file::tidy(final(guard).pages()),
        final(guard).wf(),
        final(guard).inner().contents() == old(guard).inner().contents(),
        file::grounded(old(guard).inner(), final(guard).inner()),
        file::trim_kept(*old(guard), *final(guard)),
        final(guard).inner().count() == old(guard).inner().count(),
        fresh(old(guard).pages(), final(guard).pages(), old(guard).total()),
        extends(old(guard).pages(), final(guard).pages()),
        old(guard).total() <= final(guard).total() <= old(guard).total() + pages_for(
            row_data@.len() - inline_len(row_data@.len() as int),
        ),
        old(guard).total() + pages_for(
            row_data@.len() - inline_len(row_data@.len() as int),
        ) <= u32::MAX ==> r is Ok,
        r matches Ok(inline) ==> {
            &&& stored(final(guard).pages(), inline@, row_data@, old(guard).sealed())
            &&& inline@.len() == cell_len(row_data@)
            &&& btree_node::id_of(inline@) == btree_node::id_of(row_data@)
        },
        r matches Err(e) ==> e is Corruption,
{
    let len: usize = row_data.len();
    let most: usize = MAX_CELL - OVERFLOW_TRAILER_SIZE;
    let inline_len: usize = if len <= most {
        len
    } else {
        most
    };
    let rest_len: usize = len - inline_len;
    let chunk: usize = guard.page_end() - PAGE_HEADER_SIZE;
    let ghost n = inline_len as int;
    let ghost rest = row_data@.skip(n);
    let ghost m0 = guard.pages();
    let ghost t0 = guard.total();
    let count: usize = if rest_len == 0 {
        0
    } else {
        (rest_len - 1) / chunk + 1
    };
    proof {
        chunks(rest_len as int, chunk as int);
    }
    let mut left: usize = count;
    let mut next_page: u32 = 0;
    assert(rest.skip(rest.len() as int) =~= Seq::empty());
    while left > 0
        invariant
            left <= count,
            chunk == 4052 || chunk == 4076,
            guard.sealed() ==> chunk == 4052,
            file::trim_kept(*old(guard), *guard),
            count <= pages_for(rest_len as int),
            count * chunk >= rest_len,
            rest_len > 0 ==> (count - 1) * chunk < rest_len,
            count > 0 <==> rest_len > 0,
            n == inline_len == self::inline_len(len as int),
            len == row_data@.len() == rest_len + n,
            len <= u32::MAX,
            rest == row_data@.skip(n),
            guard.wf(),
            guard.inner().contents() == old(guard).inner().contents(),
            file::grounded(old(guard).inner(), guard.inner()),
            guard.inner().count() == old(guard).inner().count(),
            m0 == old(guard).pages(),
            t0 == old(guard).total(),
            t0 >= 1,
            file::tidy(m0) ==> file::tidy(guard.pages()),
            m0 == old(guard).pages(),
            fresh(m0, guard.pages(), t0),
            guard.total() == t0 + (count - left),
            extends(m0, guard.pages()),
            left < count ==> next_page != 0,
            left == count ==> next_page == 0,
            ({
                let from = left * chunk;
                let from2 = if from <= rest_len {
                    from as int
                } else {
                    rest_len as int
                };
                &&& btree::chain(
                    guard.pages(),
                    next_page,
                    (rest_len - from2) as nat,
                    (count - left) as nat,
                ) == Some(rest.skip(from2))
                &&& btree::chain_apart(
                    guard.pages(),
                    next_page,
                    (rest_len - from2) as nat,
                    (count - left) as nat,
                )
                &&& guard.sealed() ==> btree::chain_trim(
                    guard.pages(),
                    next_page,
                    (rest_len - from2) as nat,
                    (count - left) as nat,
                )
            }),
        decreases left,
    {
        let c: usize = left - 1;
        proof {
            chunk_bounds(left as int, count as int, chunk as int, rest_len as int);
        }
        let start: usize = c * chunk;
        let end: usize = if rest_len - start <= chunk {
            rest_len
        } else {
            start + chunk
        };
        let ghost before = guard.pages();
        proof {
            guard.pages_bounded();
        }
        let page_no: u32 = guard.allocate_page()?;
        let page: Page = build_overflow_page(&row_data[inline_len + start..inline_len + end], next_page);
        let ghost data = page.data@;
        guard.put_page(page_no, page);
        proof {
            let m = guard.pages();
            let rem = (rest_len - end) as nat;
            let fuel = (count - left) as nat;
            assert(file::keeps_trim(before, m) || !guard.sealed());
            file::tidy_pair(before, page_no, Seq::new(4096, |i: int| 0u8), page_no, data, data);
            assert(extends(before, m));
            assert(overflow_kept(before, m));
            chain_kept(before, m, next_page, rem, fuel);
            assert(m[page_no] == data);
            let part = overflow::payload_of(data);
            assert(part =~= rest.subrange(start as int, end as int));
            assert(part.take(part.len() as int) =~= part);
            assert(rest.skip(start as int) =~= part + rest.skip(end as int));
        }
        next_page = page_no;
        left = c;
    }
    let mut inline: Vec<u8> = copy_slice(&row_data[0..inline_len]);
    append_overflow_trailer(&mut inline, next_page, rest_len as u32);
    proof {
        let start = row_data@.subrange(0, n);
        overflow::trailer_round_trip(start, next_page, rest_len as u32);
        assert(rest.skip(0) =~= rest);
        assert(inline@.take(n) =~= row_data@.take(n));
        assert(count <= pages_for(rest_len as int));
        chain_more_fuel(
            guard.pages(),
            next_page,
            rest_len as nat,
            count as nat,
            btree::chain_fuel(rest_len as nat),
        );
        bytes::get_agree(inline@, 0, row_data@, 0, 8);
    }
    Ok(inline)
}

// ---------------------------------------------------------------------------
// Inserting
// ---------------------------------------------------------------------------

/// How an insertion below a page went.
pub enum InsertResult {
    Fit,
    Split { new_page: u32, separator: u64 },
}

/// The bytes of `len` zeros.
pub open spec fn blank(len: int) -> Seq<u8> {
    Seq::new(len as nat, |i: int| 0u8)
}

/// The index at which a key belongs among ascending items.
pub open spec fn is_place(items: Seq<(u64, Seq<u8>)>, k: u64, pos: int) -> bool {
    &&& 0 <= pos <= items.len()
    &&& forall|i: int| 0 <= i < pos ==> (#[trigger] items[i]).0 < k
    &&& forall|i: int| pos <= i < items.len() ==> (#[trigger] items[i]).0 > k
}

/// The cells of items.
pub open spec fn values(items: Seq<(u64, Seq<u8>)>) -> Seq<Seq<u8>> {
    items.map_values(|it: (u64, Seq<u8>)| it.1)
}

/// The rows of a leaf and a new cell of the given length fit into one leaf, or
/// into two when they are parted somewhere, if the contents of leaves end at `cap`.
pub open spec fn has_room(items: Seq<(u64, Seq<u8>)>, k: u64, len: int, cap: int) -> bool {
    exists|pos: int| #[trigger] is_place(items, k, pos) && room_at(values(items), pos, len, cap)
}

/// A row below `p` is its own cell: it can be, and the leaf for its key, or that leaf
/// and a second one, have room for all of it.
pub open spec fn kept_inline(
    t: Map<u32, tree::Node<u64, Seq<u8>>>,
    p: u32,
    h: nat,
    k: u64,
    row: Seq<u8>,
    cap: int,
) -> bool {
    own_cell(row) && has_room(t[tree::leaf_for(t, p, h, k)]->items, k, row.len() as int, cap)
}

/// See [`has_room`].
pub open spec fn room_at(rows: Seq<Seq<u8>>, pos: int, len: int, cap: int) -> bool {
    let new = rows.insert(pos, blank(len));
    ||| btree_node::rows_fit(new, cap)
    ||| exists|m: int| #[trigger] btree_node::parts_fit(new, m, cap)
}

/// Rows of the same lengths take the same room.
proof fn same_lengths(a: Seq<Seq<u8>>, b: Seq<Seq<u8>>)
    requires
        a.len() == b.len(),
        forall|i: int| 0 <= i < a.len() ==> (#[trigger] a[i]).len() == b[i].len(),
    ensures
        btree_node::total_len(a) == btree_node::total_len(b),
    decreases a.len(),
{
    if a.len() > 0 {
        same_lengths(a.drop_last(), b.drop_last());
        assert(a[a.len() - 1].len() == b[b.len() - 1].len());
    }
}

/// Only the length of the new row matters for the room it takes.
pub proof fn room_by_length(rows: Seq<Seq<u8>>, pos: int, cell: Seq<u8>, cap: int)
    requires
        0 <= pos <= rows.len(),
    ensures
        ({
            let a = rows.insert(pos, cell);
            let b = rows.insert(pos, blank(cell.len() as int));
            &&& btree_node::rows_fit(a, cap) == btree_node::rows_fit(b, cap)
            &&& forall|m: int| #[trigger]
                btree_node::parts_fit(a, m, cap) == btree_node::parts_fit(b, m, cap)
        }),
{
    let a = rows.insert(pos, cell);
    let b = rows.insert(pos, blank(cell.len() as int));
    same_lengths(a, b);
    assert forall|m: int| #[trigger] btree_node::parts_fit(a, m, cap) == btree_node::parts_fit(
        b,
        m,
        cap,
    ) by {
        if 1 <= m < a.len() {
            same_lengths(a.take(m), b.take(m));
            same_lengths(a.skip(m), b.skip(m));
        }
    }
}

/// A subtree took a row.
#[verifier::opaque]
pub open spec fn grown(
    m: Map<u32, Seq<u8>>,
    m2: Map<u32, Seq<u8>>,
    p: u32,
    h: nat,
    lo: Option<u64>,
    hi: Option<u64>,
    end: u32,
    k: u64,
    cell: Seq<u8>,
) -> bool {
    let t = btree::view_of(m);
    let t2 = btree::view_of(m2);
    &&& tree::wf(t2, p, h, lo, hi, end)
    &&& tree::first_leaf(t2, p, h) == tree::first_leaf(t, p, h)
    &&& tree::claims(t, t2, p, p, h)
    &&& rest_kept(m, m2, p, h, end)
    &&& forall|k2: u64|
        tree::in_range(lo, hi, k2) ==> #[trigger] tree::find(t2, p, h, k2) == if k2 == k {
            Some(cell)
        } else {
            tree::find(t, p, h, k2)
        }
}

/// A subtree took a row and split: the part from `sep` on is now below `n`.
#[verifier::opaque]
pub open spec fn parted(
    m: Map<u32, Seq<u8>>,
    m2: Map<u32, Seq<u8>>,
    p: u32,
    n: u32,
    h: nat,
    lo: Option<u64>,
    hi: Option<u64>,
    end: u32,
    sep: u64,
    k: u64,
    cell: Seq<u8>,
) -> bool {
    let t = btree::view_of(m);
    let t2 = btree::view_of(m2);
    &&& tree::split_ok(t, t2, p, n, h, lo, hi, end, sep)
    &&& rest_kept(m, m2, p, h, end)
    &&& forall|k2: u64|
        tree::in_range(lo, hi, k2) ==> #[trigger] tree::split_find(t2, p, n, h, sep, k2) == if k2
            == k {
            Some(cell)
        } else {
            tree::find(t, p, h, k2)
        }
}

/// The subtree and the leaf behind it are there.
pub open spec fn ready(
    m: Map<u32, Seq<u8>>,
    p: u32,
    h: nat,
    lo: Option<u64>,
    hi: Option<u64>,
    end: u32,
) -> bool {
    let t = btree::view_of(m);
    &&& tree::wf(t, p, h, lo, hi, end)
    &&& end != 0 ==> m.contains_key(end) && !tree::owns(t, p, h, end) && !(t[end] is Other)
}

/// Overflow pages are no nodes.
pub proof fn overflow_no_node(s: Seq<u8>)
    requires
        page::flags_of(s) == page::PAGE_OVERFLOW,
    ensures
        btree_node::node_of(s) == Node::<u64, Seq<u8>>::Other,
{
    assert(0x10u16 & 1u16 == 0) by (bit_vector);
    assert(0x10u16 & 2u16 == 0) by (bit_vector);
    btree_node::leaf_basics(s);
}

/// Sets the back pointer of a leaf.
pub(crate) fn relink(guard: &mut WriteGuard, page_no: u32, prev: u32) -> (r: Result<()>)
    requires
        old(guard).wf(),
    ensures
        r is Ok && file::tidy(old(guard).pages()) ==> file::tidy(final(guard).pages()),
        final(guard).wf(),
        final(guard).total() == old(guard).total(),
        final(guard).inner().contents() == old(guard).inner().contents(),
        file::grounded(old(guard).inner(), final(guard).inner()),
        file::trim_kept(*old(guard), *final(guard)),
        final(guard).inner().count() == old(guard).inner().count(),
        fresh(old(guard).pages(), final(guard).pages(), old(guard).total()),
        r is Ok <==> old(guard).pages().contains_key(page_no),
        r is Ok ==> {
            &&& final(guard).pages() == old(guard).pages().insert(
                page_no,
                final(guard).pages()[page_no],
            )
            &&& relinked(old(guard).pages()[page_no], final(guard).pages()[page_no])
        },
        r matches Err(e) ==> e is Corruption || e is Io,
{
    let mut np: Page = guard.write_page(page_no)?;
    let ghost n0 = np.data@;
    np.set_prev_leaf(prev);
    np.update_checksum();
    proof {
        page::trimmed_same(n0, np.data@);
        guard.pages_bounded();
        file::tidy_page(guard.pages(), page_no);
        file::tidy_put(guard.pages(), page_no, np.data@);
    }
    guard.put_page(page_no, np);
    Ok(())
}

/// Splits a leaf that takes a new cell at `pos`, before row `mid`.
fn split_leaf(guard: &mut WriteGuard, page_no: u32, page: &Page, pos: usize, cell: &[u8], mid: usize) -> (r:
    Result<(u32, u64)>)
    requires
        old(guard).wf(),
        old(guard).pages().contains_key(page_no),
        old(guard).pages()[page_no] == page.data@,
        btree_node::row_leaf(page.data@),
        pos <= page::count_of(page.data@),
        cell@.len() >= 8,
        btree_node::parts_fit(
            btree_node::cells(page.data@).insert(pos as int, cell@),
            mid as int,
            old(guard).cap(),
        ),
    ensures
        r is Ok && file::tidy(old(guard).pages()) ==> file::tidy(final(guard).pages()),
        final(guard).wf(),
        old(guard).total() <= final(guard).total() <= old(guard).total() + 1,
        final(guard).inner().contents() == old(guard).inner().contents(),
        file::grounded(old(guard).inner(), final(guard).inner()),
        file::trim_kept(*old(guard), *final(guard)),
        final(guard).inner().count() == old(guard).inner().count(),
        fresh(old(guard).pages(), final(guard).pages(), old(guard).total()),
        ({
            let m = old(guard).pages();
            let m2 = final(guard).pages();
            let next = page::next_of(page.data@);
            let rows = btree_node::cells(page.data@).insert(pos as int, cell@);
            (next != 0 ==> next != page_no && m.contains_key(next)) ==> {
                &&& r is Ok <==> old(guard).total() < u32::MAX
                &&& r matches Err(e) ==> e is Corruption
                &&& r matches Ok(x) ==> {
                    &&& x.0 == old(guard).total()
                    &&& x.1 == btree_node::id_of(rows[mid as int])
                    &&& !m.contains_key(x.0)
                    &&& m2.contains_key(x.0)
                    &&& m2.contains_key(page_no)
                    &&& btree_node::row_leaf(m2[page_no])
                    &&& btree_node::cells(m2[page_no]) == rows.subrange(0, mid as int)
                    &&& page::next_of(m2[page_no]) == x.0
                    &&& btree_node::row_leaf(m2[x.0])
                    &&& btree_node::cells(m2[x.0]) == rows.subrange(
                        mid as int,
                        rows.len() as int,
                    )
                    &&& page::next_of(m2[x.0]) == next
                    &&& forall|q: u32| #[trigger]
                        m.contains_key(q) && q != page_no ==> m2.contains_key(q) && (m2[q] == m[q]
                            || (q == next && next != 0 && relinked(m[q], m2[q])))
                }
            }
        }),
        r matches Err(e) ==> e is Corruption || e is Io,
{
    let ghost rows = btree_node::cells(page.data@).insert(pos as int, cell@);
    let ghost m = guard.pages();
    proof {
        guard.pages_bounded();
    }
    let next_leaf: u32 = page.next_leaf();
    let prev_leaf: u32 = page.prev_leaf();
    let total: usize = page.num_rows() as usize + 1;
    let new_page_no: u32 = guard.allocate_page()?;
    let separator: u64 = extract_id_at_virtual_pos(page, pos, cell, mid);
    assert(rows.subrange(0, mid as int) =~= rows.take(mid as int));
    assert(rows.subrange(mid as int, total as int) =~= rows.skip(mid as int));
    let mut left_page: Page = guard.write_page(page_no)?;
    write_leaf_range(&mut left_page, page, pos, cell, 0, mid);
    let ghost l0 = left_page.data@;
    left_page.set_next_leaf(new_page_no);
    let ghost l1 = left_page.data@;
    left_page.set_prev_leaf(prev_leaf);
    left_page.update_checksum();
    let ghost left_data = left_page.data@;
    guard.put_page(page_no, left_page);
    let mut right_page: Page = Page::new_leaf();
    write_leaf_range(&mut right_page, page, pos, cell, mid, total);
    let ghost r0 = right_page.data@;
    right_page.set_prev_leaf(page_no);
    right_page.set_next_leaf(next_leaf);
    right_page.update_checksum();
    let ghost right_data = right_page.data@;
    guard.put_page(new_page_no, right_page);
    proof {
        btree_node::same_body(l0, left_data);
        btree_node::same_body(r0, right_data);
        page::trimmed_same(l0, left_data);
        page::trimmed_same(r0, right_data);
        file::tidy_page(m, page_no);
        file::tidy_pair(
            m,
            new_page_no,
            Seq::new(4096, |i: int| 0u8),
            page_no,
            left_data,
            right_data,
        );
    }
    if next_leaf != 0 {
        relink(guard, next_leaf, new_page_no)?;
    }
    Ok((new_page_no, separator))
}

/// A leaf with one cell more.
proof fn leaf_took(
    m: Map<u32, Seq<u8>>,
    m2: Map<u32, Seq<u8>>,
    p: u32,
    lo: Option<u64>,
    hi: Option<u64>,
    end: u32,
    pos: int,
    k: u64,
    cell: Seq<u8>,
)
    requires
        tree::wf(btree::view_of(m), p, 0, lo, hi, end),
        tree::in_range(lo, hi, k),
        is_place(btree_node::items_of(m[p]), k, pos),
        m2.contains_key(p),
        btree_node::row_leaf(m2[p]),
        btree_node::cells(m2[p]) == btree_node::cells(m[p]).insert(pos, cell),
        page::next_of(m2[p]) == page::next_of(m[p]),
        btree_node::id_of(cell) == k,
        forall|q: u32| #[trigger] m.contains_key(q) && q != p ==> m2.contains_key(q) && m2[q] == m[q],
    ensures
        grown(m, m2, p, 0, lo, hi, end, k, cell),
{
    reveal(grown);
    let t = btree::view_of(m);
    let t2 = btree::view_of(m2);
    let items = btree_node::items_of(m[p]);
    let items2 = btree_node::items_of(m2[p]);
    tree::wf_leaf(t, p, lo, hi, end);
    tree::leaf_facts(t, p);
    assert(t[p] == btree_node::node_of(m[p]));
    assert(t[p]->items == items);
    assert(items2 =~= items.insert(pos, (k, cell)));
    tree::items_insert(items, lo, hi, pos, k, cell);
    tree::leaf_changed(t, t2, p, lo, hi, end);
    assert forall|k2: u64| tree::in_range(lo, hi, k2) implies #[trigger] tree::find(t2, p, 0, k2)
        == if k2 == k {
        Some(cell)
    } else {
        tree::find(t, p, 0, k2)
    } by {
        assert(tree::item_find(items2, k2) == if k2 == k {
            Some(cell)
        } else {
            tree::item_find(items, k2)
        });
        assert(tree::find(t, p, 0, k2) == tree::item_find(items, k2));
    }
}

/// A leaf that was split with one cell more.
proof fn leaf_parted(
    m: Map<u32, Seq<u8>>,
    m2: Map<u32, Seq<u8>>,
    p: u32,
    n: u32,
    lo: Option<u64>,
    hi: Option<u64>,
    end: u32,
    pos: int,
    mid: int,
    k: u64,
    cell: Seq<u8>,
)
    requires
        ready(m, p, 0, lo, hi, end),
        tree::in_range(lo, hi, k),
        is_place(btree_node::items_of(m[p]), k, pos),
        btree_node::id_of(cell) == k,
        !m.contains_key(n),
        m2.contains_key(p),
        m2.contains_key(n),
        btree_node::row_leaf(m2[p]),
        btree_node::row_leaf(m2[n]),
        ({
            let rows = btree_node::cells(m[p]).insert(pos, cell);
            &&& 0 < mid < rows.len()
            &&& btree_node::cells(m2[p]) == rows.subrange(0, mid)
            &&& btree_node::cells(m2[n]) == rows.subrange(mid, rows.len() as int)
        }),
        page::next_of(m2[p]) == n,
        page::next_of(m2[n]) == page::next_of(m[p]),
        forall|q: u32| #[trigger]
            m.contains_key(q) && q != p ==> m2.contains_key(q) && (m2[q] == m[q] || (q
                == page::next_of(m[p]) && q != 0 && relinked(m[q], m2[q]))),
    ensures
        parted(
            m,
            m2,
            p,
            n,
            0,
            lo,
            hi,
            end,
            btree_node::id_of(btree_node::cells(m[p]).insert(pos, cell)[mid]),
            k,
            cell,
        ),
{
    reveal(parted);
    let t = btree::view_of(m);
    let t2 = btree::view_of(m2);
    let items = btree_node::items_of(m[p]);
    let rows = btree_node::cells(m[p]).insert(pos, cell);
    let all = btree_node::keyed(rows);
    let sep = btree_node::id_of(rows[mid]);
    tree::wf_leaf(t, p, lo, hi, end);
    tree::leaf_facts(t, p);
    assert(t[p] == btree_node::node_of(m[p]));
    assert(t[p]->items == items);
    assert(all =~= items.insert(pos, (k, cell)));
    tree::items_insert(items, lo, hi, pos, k, cell);
    assert(btree_node::items_of(m2[p]) =~= all.subrange(0, mid));
    assert(btree_node::items_of(m2[n]) =~= all.subrange(mid, all.len() as int));
    assert(t2[p] == btree_node::node_of(m2[p]));
    assert(t2[n] == btree_node::node_of(m2[n]));
    assert(tree::same_except(t, t2, p)) by {
        assert forall|q: u32| #[trigger] t.contains_key(q) && q != p implies t2.contains_key(q)
            && t2[q] == t[q] by {
            assert(m.contains_key(q));
            if m2[q] != m[q] {
                relinked_node(m[q], m2[q]);
            }
        }
    }
    tree::leaf_split(t, t2, p, n, lo, hi, end, all, mid);
    assert(all[mid].0 == sep);
    assert forall|k2: u64| tree::in_range(lo, hi, k2) implies #[trigger] tree::split_find(
        t2,
        p,
        n,
        0,
        sep,
        k2,
    ) == if k2 == k {
        Some(cell)
    } else {
        tree::find(t, p, 0, k2)
    } by {
        assert(tree::split_find(t2, p, n, 0, all[mid].0, k2) == tree::item_find(all, k2));
        assert(tree::find(t, p, 0, k2) == tree::item_find(items, k2));
    }
    assert(rest_kept(m, m2, p, 0, end)) by {
        assert forall|q: u32| #[trigger]
            m.contains_key(q) && !tree::owns(t, p, 0, q) implies m2.contains_key(q) && (m2[q]
            == m[q] || (q == end && end != 0 && relinked(m[q], m2[q]))) by {
            assert(q != p);
        }
    }
}

/// The outcome of inserting a row below a page.
pub open spec fn inserted(
    m: Map<u32, Seq<u8>>,
    m2: Map<u32, Seq<u8>>,
    p: u32,
    h: nat,
    lo: Option<u64>,
    hi: Option<u64>,
    end: u32,
    k: u64,
    row: Seq<u8>,
    total: int,
    cap: int,
    depth: int,
    r: Result<(InsertResult, Ghost<Seq<u8>>)>,
) -> bool {
    let t = btree::view_of(m);
    match r {
        Ok((InsertResult::Fit, cell)) => {
            &&& tree::find(t, p, h, k) is None
            &&& grown(m, m2, p, h, lo, hi, end, k, cell@)
            &&& stored(m2, cell@, row, cap < 4092)
            &&& kept_inline(t, p, h, k, row, cap) ==> cell@ == row
        },
        Ok((InsertResult::Split { new_page, separator }, cell)) => {
            &&& tree::find(t, p, h, k) is None
            &&& parted(m, m2, p, new_page, h, lo, hi, end, separator, k, cell@)
            &&& stored(m2, cell@, row, cap < 4092)
            &&& kept_inline(t, p, h, k, row, cap) ==> cell@ == row
        },
        Err(BoogyError::DuplicateKey(id)) => {
            &&& id == k
            &&& tree::find(t, p, h, k) is Some
            &&& m2 == m
            &&& depth + h < MAX_TREE_DEPTH
        },
        Err(BoogyError::PageFull) => {
            &&& tree::find(t, p, h, k) is None
            &&& !has_room(t[tree::leaf_for(t, p, h, k)]->items, k, cell_len(row), cap)
        },
        Err(BoogyError::Corruption(_)) => {
            ||| depth + h >= MAX_TREE_DEPTH
            ||| tree::find(t, p, h, k) is None && total + h + 1 + pages_for(row.len() as int)
                > u32::MAX
        },
        Err(_) => false,
    }
}

/// Puts a cell into a leaf that has room for it.
fn place_cell(guard: &mut WriteGuard, page_no: u32, page: &Page, pos: usize, cell: &[u8]) -> (r:
    Result<()>)
    requires
        old(guard).wf(),
        old(guard).pages().contains_key(page_no),
        old(guard).pages()[page_no] == page.data@,
        btree_node::row_leaf(page.data@),
        pos <= page::count_of(page.data@),
        cell@.len() >= 8,
        btree_node::rows_fit(
            btree_node::cells(page.data@).insert(pos as int, cell@),
            old(guard).cap(),
        ),
    ensures
        r is Ok && file::tidy(old(guard).pages()) ==> file::tidy(final(guard).pages()),
        final(guard).wf(),
        final(guard).total() == old(guard).total(),
        final(guard).inner().contents() == old(guard).inner().contents(),
        file::grounded(old(guard).inner(), final(guard).inner()),
        file::trim_kept(*old(guard), *final(guard)),
        final(guard).inner().count() == old(guard).inner().count(),
        fresh(old(guard).pages(), final(guard).pages(), old(guard).total()),
        r is Ok,
        ({
            let m2 = final(guard).pages();
            &&& m2 == old(guard).pages().insert(page_no, m2[page_no])
            &&& btree_node::row_leaf(m2[page_no])
            &&& btree_node::cells(m2[page_no]) == btree_node::cells(page.data@).insert(
                pos as int,
                cell@,
            )
            &&& page::next_of(m2[page_no]) == page::next_of(page.data@)
        }),
{
    let mut wp: Page = guard.write_page(page_no)?;
    write_leaf_with_insert(&mut wp, page, pos, cell);
    let ghost w0 = wp.data@;
    wp.update_checksum();
    proof {
        btree_node::sealed_leaf(w0, wp.data@);
        page::trimmed_same(w0, wp.data@);
        guard.pages_bounded();
        file::tidy_page(guard.pages(), page_no);
        file::tidy_put(guard.pages(), page_no, wp.data@);
    }
    guard.put_page(page_no, wp);
    Ok(())
}

/// What is known of a leaf that a row goes into.
spec fn going_into(
    m: Map<u32, Seq<u8>>,
    p: u32,
    lo: Option<u64>,
    hi: Option<u64>,
    end: u32,
    pos: int,
    k: u64,
) -> bool {
    &&& ready(m, p, 0, lo, hi, end)
    &&& tree::in_range(lo, hi, k)
    &&& is_place(btree_node::items_of(m[p]), k, pos)
    &&& tree::find(btree::view_of(m), p, 0, k) is None
    &&& btree::view_of(m)[p]->items == btree_node::items_of(m[p])
    &&& page::next_of(m[p]) == end
}

/// Inserts a row that is not its own cell.
#[verifier::rlimit(40)]
fn insert_long(
    guard: &mut WriteGuard,
    page_no: u32,
    page: &Page,
    pos: usize,
    rowid: u64,
    row_data: &[u8],
    Ghost(lo): Ghost<Option<u64>>,
    Ghost(hi): Ghost<Option<u64>>,
    Ghost(end): Ghost<u32>,
    Ghost(depth): Ghost<int>,
) -> (r: Result<(InsertResult, Ghost<Seq<u8>>)>)
    requires
        old(guard).wf(),
        old(guard).pages().contains_key(page_no),
        old(guard).pages()[page_no] == page.data@,
        btree_node::row_leaf(page.data@),
        pos <= page::count_of(page.data@),
        8 <= row_data@.len() <= u32::MAX,
        !kept_whole(row_data@),
        going_into(old(guard).pages(), page_no, lo, hi, end, pos as int, rowid) ==> !kept_inline(
            btree::view_of(old(guard).pages()),
            page_no,
            0,
            rowid,
            row_data@,
            old(guard).cap(),
        ),
        btree_node::id_of(row_data@) == rowid,
        depth < MAX_TREE_DEPTH,
    ensures
        r is Ok && file::tidy(old(guard).pages()) ==> file::tidy(final(guard).pages()),
        final(guard).wf(),
        final(guard).total() >= old(guard).total(),
        final(guard).total() <= old(guard).total() + 1 + pages_for(row_data@.len() as int),
        final(guard).inner().contents() == old(guard).inner().contents(),
        file::grounded(old(guard).inner(), final(guard).inner()),
        file::trim_kept(*old(guard), *final(guard)),
        final(guard).inner().count() == old(guard).inner().count(),
        fresh(old(guard).pages(), final(guard).pages(), old(guard).total()),
        going_into(old(guard).pages(), page_no, lo, hi, end, pos as int, rowid) ==> inserted(
            old(guard).pages(),
            final(guard).pages(),
            page_no,
            0,
            lo,
            hi,
            end,
            rowid,
            row_data@,
            old(guard).total(),
            old(guard).cap(),
            depth,
            r,
        ),
{
    let ghost m = guard.pages();
    let ghost ok = going_into(m, page_no, lo, hi, end, pos as int, rowid);
    let ghost items = btree_node::items_of(page.data@);
    let ghost rows = btree_node::cells(page.data@);
    proof {
        tree::leaf_facts(btree::view_of(m), page_no);
        guard.pages_bounded();
        btree_node::leaf_bounds(page.data@);
        btree_node::leaf_total(page.data@);
        assert(values(items) =~= rows);
    }
    let num_rows: usize = page.num_rows() as usize;
    let data_size: usize = page.free_space_offset() as usize - (PAGE_HEADER_SIZE + num_rows * 2);
    let cap: usize = guard.page_end();
    let inline: Vec<u8> = write_overflow_row(guard, row_data)?;
    let ghost m1 = guard.pages();
    let ghost new = rows.insert(pos as int, inline@);
    proof {
        btree_node::total_len_insert(rows, pos as int, inline@);
        guard.pages_bounded();
    }
    if PAGE_HEADER_SIZE + (num_rows + 1) * 2 + data_size + inline.len() <= cap {
        place_cell(guard, page_no, page, pos, inline.as_slice())?;
        proof {
            if ok {
                let m2 = guard.pages();
                leaf_took(m, m2, page_no, lo, hi, end, pos as int, rowid, inline@);
                after_overflow(m, m1, m2, page_no, end);
                stored_kept(m1, m2, inline@, row_data@, guard.sealed());
            }
        }
        return Ok((InsertResult::Fit, Ghost(inline@)));
    }
    if num_rows == 0 {
        proof {
            assert(rows =~= Seq::empty());
            assert(false);
        }
        return Err(BoogyError::PageFull);
    }
    let mid: usize = split_within(page, pos, inline.as_slice(), cap);
    if !fits_parted(page, pos, inline.as_slice(), mid, cap) {
        proof {
            if ok {
                nowhere_parted(page.data@, pos as int, inline@, mid as int, cap as int);
                no_room(items, rowid, pos as int, inline@, cap as int);
            }
        }
        return Err(BoogyError::PageFull);
    }
    let (new_page, separator): (u32, u64) = split_leaf(
        guard,
        page_no,
        page,
        pos,
        inline.as_slice(),
        mid,
    )?;
    proof {
        if ok {
            let m2 = guard.pages();
            assert forall|q: u32| #[trigger]
                m.contains_key(q) && q != page_no implies m2.contains_key(q) && (m2[q] == m[q] || (
            q == page::next_of(m[page_no]) && q != 0 && relinked(m[q], m2[q]))) by {
                assert(m1.contains_key(q));
            }
            leaf_parted(
                m,
                m2,
                page_no,
                new_page,
                lo,
                hi,
                end,
                pos as int,
                mid as int,
                rowid,
                inline@,
            );
            after_overflow(m, m1, m2, page_no, end);
            stored_kept(m1, m2, inline@, row_data@, guard.sealed());
        }
    }
    Ok((InsertResult::Split { new_page, separator }, Ghost(inline@)))
}

/// The overflow pages of a new row stay while the leaf is written.
proof fn after_overflow(
    m: Map<u32, Seq<u8>>,
    m1: Map<u32, Seq<u8>>,
    m2: Map<u32, Seq<u8>>,
    p: u32,
    end: u32,
)
    requires
        extends(m, m1),
        m.contains_key(p),
        btree_node::row_leaf(m[p]),
        end != 0 ==> m.contains_key(end) && !(btree_node::node_of(m[end]) is Other),
        forall|q: u32| #[trigger]
            m1.contains_key(q) && q != p ==> m2.contains_key(q) && (m2[q] == m1[q] || (q == end && q
                != 0)),
    ensures
        overflow_kept(m1, m2),
{
    assert forall|q: u32| #[trigger]
        m1.contains_key(q) && page::flags_of(m1[q]) == page::PAGE_OVERFLOW implies m2.contains_key(
        q,
    ) && m2[q] == m1[q] by {
        overflow_no_node(m1[q]);
        assert(m.contains_key(p));
        if q == p {
            assert(m1[q] == m[p]);
        } else if q == end && end != 0 {
            assert(m.contains_key(end));
            assert(m1[q] == m[end]);
        }
    }
}

/// Where the chosen place does not work, none does.
pub proof fn nowhere_parted(s: Seq<u8>, pos: int, cell: Seq<u8>, mid: int, cap: int)
    requires
        btree_node::leaf_ok(s),
        0 <= pos <= page::count_of(s),
        btree_node::parted_at(btree_node::cells(s).insert(pos, cell), mid, cap),
        !btree_node::parts_fit(btree_node::cells(s).insert(pos, cell), mid, cap),
    ensures
        forall|k: int| !#[trigger] btree_node::parts_fit(
            btree_node::cells(s).insert(pos, cell),
            k,
            cap,
        ),
{
    let new = btree_node::cells(s).insert(pos, cell);
    assert forall|k: int| !#[trigger] btree_node::parts_fit(new, k, cap) by {
        if btree_node::parts_fit(new, k, cap) && btree_node::widest(new, mid, cap) {
            widest_parts(new, mid, k, cap);
            btree_node::take_monotone(new, 1, k);
            assert(btree_node::rows_fit(new.take(1), cap));
        }
    }
}

/// Inserts a row into a leaf that does not take it as it is.
fn insert_split(
    guard: &mut WriteGuard,
    page_no: u32,
    page: &Page,
    pos: usize,
    rowid: u64,
    row_data: &[u8],
    Ghost(lo): Ghost<Option<u64>>,
    Ghost(hi): Ghost<Option<u64>>,
    Ghost(end): Ghost<u32>,
    Ghost(depth): Ghost<int>,
) -> (r: Result<(InsertResult, Ghost<Seq<u8>>)>)
    requires
        old(guard).wf(),
        old(guard).pages().contains_key(page_no),
        old(guard).pages()[page_no] == page.data@,
        btree_node::row_leaf(page.data@),
        pos <= page::count_of(page.data@),
        8 <= row_data@.len() <= u32::MAX,
        own_cell(row_data@),
        btree_node::id_of(row_data@) == rowid,
        !btree_node::rows_fit(
            btree_node::cells(page.data@).insert(pos as int, row_data@),
            old(guard).cap(),
        ),
        depth < MAX_TREE_DEPTH,
    ensures
        r is Ok && file::tidy(old(guard).pages()) ==> file::tidy(final(guard).pages()),
        final(guard).wf(),
        final(guard).total() >= old(guard).total(),
        final(guard).total() <= old(guard).total() + 1 + pages_for(row_data@.len() as int),
        final(guard).inner().contents() == old(guard).inner().contents(),
        file::grounded(old(guard).inner(), final(guard).inner()),
        file::trim_kept(*old(guard), *final(guard)),
        final(guard).inner().count() == old(guard).inner().count(),
        fresh(old(guard).pages(), final(guard).pages(), old(guard).total()),
        going_into(old(guard).pages(), page_no, lo, hi, end, pos as int, rowid) ==> inserted(
            old(guard).pages(),
            final(guard).pages(),
            page_no,
            0,
            lo,
            hi,
            end,
            rowid,
            row_data@,
            old(guard).total(),
            old(guard).cap(),
            depth,
            r,
        ),
{
    let ghost m = guard.pages();
    let ghost ok = going_into(m, page_no, lo, hi, end, pos as int, rowid);
    let ghost items = btree_node::items_of(page.data@);
    let ghost rows = btree_node::cells(page.data@);
    proof {
        tree::leaf_facts(btree::view_of(m), page_no);
        btree_node::leaf_basics(page.data@);
        assert(values(items) =~= rows);
    }
    let cap: usize = guard.page_end();
    proof {
        if rows.len() == 0 {
            assert(rows =~= Seq::empty());
            btree_node::total_len_insert(rows, pos as int, row_data@);
        }
    }
    let mid: usize = if page.num_rows() == 0 {
        0
    } else {
        split_within(page, pos, row_data, cap)
    };
    if !fits_parted(page, pos, row_data, mid, cap) {
        proof {
            if ok {
                nowhere_parted(page.data@, pos as int, row_data@, mid as int, cap as int);
                no_room(items, rowid, pos as int, row_data@, cap as int);
            }
        }
        if row_data.len() > MAX_CELL {
            return insert_long(
                guard,
                page_no,
                page,
                pos,
                rowid,
                row_data,
                Ghost(lo),
                Ghost(hi),
                Ghost(end),
                Ghost(depth),
            );
        }
        return Err(BoogyError::PageFull);
    }
    let (new_page, separator): (u32, u64) = split_leaf(guard, page_no, page, pos, row_data, mid)?;
    proof {
        if ok {
            leaf_parted(
                m,
                guard.pages(),
                page_no,
                new_page,
                lo,
                hi,
                end,
                pos as int,
                mid as int,
                rowid,
                row_data@,
            );
        }
    }
    Ok((InsertResult::Split { new_page, separator }, Ghost(row_data@)))
}

/// Inserts a row into a leaf.
fn insert_into_leaf(
    guard: &mut WriteGuard,
    page_no: u32,
    page: &Page,
    rowid: u64,
    row_data: &[u8],
    Ghost(lo): Ghost<Option<u64>>,
    Ghost(hi): Ghost<Option<u64>>,
    Ghost(end): Ghost<u32>,
    Ghost(depth): Ghost<int>,
) -> (r: Result<(InsertResult, Ghost<Seq<u8>>)>)
    requires
        old(guard).wf(),
        old(guard).pages().contains_key(page_no),
        old(guard).pages()[page_no] == page.data@,
        btree_node::row_leaf(page.data@),
        8 <= row_data@.len() <= u32::MAX,
        btree_node::id_of(row_data@) == rowid,
        depth < MAX_TREE_DEPTH,
    ensures
        r is Ok && file::tidy(old(guard).pages()) ==> file::tidy(final(guard).pages()),
        final(guard).wf(),
        final(guard).total() >= old(guard).total(),
        final(guard).total() <= old(guard).total() + 1 + pages_for(row_data@.len() as int),
        final(guard).inner().contents() == old(guard).inner().contents(),
        file::grounded(old(guard).inner(), final(guard).inner()),
        file::trim_kept(*old(guard), *final(guard)),
        final(guard).inner().count() == old(guard).inner().count(),
        fresh(old(guard).pages(), final(guard).pages(), old(guard).total()),
        ready(old(guard).pages(), page_no, 0, lo, hi, end) && tree::in_range(lo, hi, rowid)
            ==> inserted(
            old(guard).pages(),
            final(guard).pages(),
            page_no,
            0,
            lo,
            hi,
            end,
            rowid,
            row_data@,
            old(guard).total(),
            old(guard).cap(),
            depth,
            r,
        ),
{
    let ghost m = guard.pages();
    let ghost t = btree::view_of(m);
    let ghost ok = ready(m, page_no, 0, lo, hi, end) && tree::in_range(lo, hi, rowid);
    let ghost items = btree_node::items_of(page.data@);
    let ghost rows = btree_node::cells(page.data@);
    let num_rows: usize = page.num_rows() as usize;
    let len: usize = row_data.len();
    let (pos, found): (usize, bool) = find_insertion_point(page, rowid);
    proof {
        btree_node::leaf_bounds(page.data@);
        btree_node::leaf_total(page.data@);
        if ok {
            tree::wf_leaf(t, page_no, lo, hi, end);
            tree::leaf_facts(t, page_no);
            assert(t[page_no] == btree_node::node_of(m[page_no]));
            assert(tree::items_ok(items, None, None));
            assert(tree::find(t, page_no, 0, rowid) == tree::item_find(items, rowid));
            if !found {
                assert(is_place(items, rowid, pos as int));
                assert(going_into(m, page_no, lo, hi, end, pos as int, rowid));
            }
        }
    }
    if found {
        return Err(BoogyError::DuplicateKey(rowid));
    }
    let data_size: usize = page.free_space_offset() as usize - (PAGE_HEADER_SIZE + num_rows * 2);
    proof {
        btree_node::total_len_insert(rows, pos as int, row_data@);
    }
    if len > MAX_OWN_CELL || has_overflow(row_data) {
        return insert_long(
            guard,
            page_no,
            page,
            pos,
            rowid,
            row_data,
            Ghost(lo),
            Ghost(hi),
            Ghost(end),
            Ghost(depth),
        );
    }
    if PAGE_HEADER_SIZE + (num_rows + 1) * 2 + data_size + len <= guard.page_end() {
        place_cell(guard, page_no, page, pos, row_data)?;
        proof {
            if ok {
                leaf_took(m, guard.pages(), page_no, lo, hi, end, pos as int, rowid, row_data@);
            }
        }
        return Ok((InsertResult::Fit, Ghost(row_data@)));
    }
    insert_split(
        guard,
        page_no,
        page,
        pos,
        rowid,
        row_data,
        Ghost(lo),
        Ghost(hi),
        Ghost(end),
        Ghost(depth),
    )
}

/// Where the new cell does not fit, there is no room.
proof fn no_room(items: Seq<(u64, Seq<u8>)>, k: u64, pos: int, cell: Seq<u8>, cap: int)
    requires
        is_place(items, k, pos),
        ({
            let new = values(items).insert(pos, cell);
            &&& !btree_node::rows_fit(new, cap)
            &&& forall|m: int| !#[trigger] btree_node::parts_fit(new, m, cap)
        }),
    ensures
        !has_room(items, k, cell.len() as int, cap),
{
    room_by_length(values(items), pos, cell, cap);
    assert forall|p: int| #[trigger] is_place(items, k, p) implies !room_at(
        values(items),
        p,
        cell.len() as int,
        cap,
    ) by {
        if p < pos {
            assert(items[p].0 < k);
        } else if pos < p {
            assert(items[pos].0 < k);
        }
        assert(p == pos);
        let new = values(items).insert(pos, blank(cell.len() as int));
        assert forall|m: int| !#[trigger] btree_node::parts_fit(new, m, cap) by {
            assert(!btree_node::parts_fit(values(items).insert(pos, cell), m, cap));
        }
    }
}

/// Where some parting works, the widest left part leaves a right part that fits.
proof fn widest_parts(rows: Seq<Seq<u8>>, b: int, k: int, cap: int)
    requires
        btree_node::widest(rows, b, cap),
        btree_node::parts_fit(rows, k, cap),
    ensures
        btree_node::rows_fit(rows.skip(b), cap),
{
    if b < k {
        assert(!btree_node::rows_fit(rows.take(k), cap));
    }
    btree_node::total_len_skip(rows, b);
    btree_node::total_len_skip(rows, k);
    btree_node::take_monotone(rows, k, b);
}

/// Whether the rows of a leaf with a new cell fit into two leaves when they are
/// parted at `mid`.
pub(crate) fn fits_parted(page: &Page, pos: usize, cell: &[u8], mid: usize, cap: usize) -> (
    r: bool)
    requires
        btree_node::leaf_ok(page.data@),
        pos <= page::count_of(page.data@),
        2 <= cell@.len() <= 4074,
    ensures
        r == btree_node::parts_fit(
            btree_node::cells(page.data@).insert(pos as int, cell@),
            mid as int,
            cap as int,
        ),
{
    let n: usize = page.num_rows() as usize;
    if mid == 0 || mid > n {
        return false;
    }
    let left: usize = btree_node::left_size(page, pos, cell, mid);
    let ghost rows = btree_node::cells(page.data@).insert(pos as int, cell@);
    proof {
        btree_node::leaf_bounds(page.data@);
    }
    let data: usize = page.free_space_offset() as usize - (PAGE_HEADER_SIZE + n * 2);
    proof {
        btree_node::leaf_total(page.data@);
        btree_node::total_len_insert(btree_node::cells(page.data@), pos as int, cell@);
        btree_node::total_len_skip(rows, mid as int);
        btree_node::total_len_take(rows, mid as int);
    }
    let right: usize = data + cell.len() - left;
    PAGE_HEADER_SIZE + mid * 2 + left <= cap && PAGE_HEADER_SIZE + (n + 1 - mid) * 2
        + right <= cap
}

/// A child of a branch, with the leaf behind it, is there if the branch is.
proof fn kid_ready(
    m: Map<u32, Seq<u8>>,
    p: u32,
    h: nat,
    h1: nat,
    lo: Option<u64>,
    hi: Option<u64>,
    end: u32,
    i: int,
)
    requires
        h == h1 + 1,
        ready(m, p, h, lo, hi, end),
        0 <= i < btree::view_of(m)[p]->children.len(),
    ensures
        ({
            let t = btree::view_of(m);
            let c = t[p]->children;
            let k = t[p]->keys;
            &&& t[p] is Branch
            &&& c.len() == k.len() + 1
            &&& ready(
                m,
                c[i],
                h1,
                tree::kid_lo(k, lo, i),
                tree::kid_hi(k, hi, i),
                tree::kid_end(t, c, h1, i, end),
            )
            &&& forall|q: u32| #[trigger] tree::owns(t, c[i], h1, q) ==> tree::owns(t, p, h, q)
            &&& tree::kid_end(t, c, h1, i, end) != end ==> tree::owns(
                t,
                p,
                h,
                tree::kid_end(t, c, h1, i, end),
            )
            &&& !tree::owns(t, c[i], h1, p)
            &&& tree::owns(t, p, h, p)
        }),
{
    let t = btree::view_of(m);
    tree::wf_branch(t, p, h, h1, lo, hi, end);
    let c = t[p]->children;
    let k = t[p]->keys;
    assert(tree::kid_wf(t, c, k, h1, lo, hi, end, i));
    let e = tree::kid_end(t, c, h1, i, end);
    assert forall|q: u32| #[trigger] tree::owns(t, c[i], h1, q) implies tree::owns(t, p, h, q) by {}
    if i + 1 < c.len() {
        assert(tree::kid_wf(t, c, k, h1, lo, hi, end, i + 1));
        let lo2 = tree::kid_lo(k, lo, i + 1);
        let hi2 = tree::kid_hi(k, hi, i + 1);
        let e2 = tree::kid_end(t, c, h1, i + 1, end);
        tree::first_leaf_owned(t, c[i + 1], h1, lo2, hi2, e2);
        tree::owned_exist(t, c[i + 1], h1, lo2, hi2, e2);
        assert(tree::owns(t, c[i + 1], h1, e));
        assert(!tree::owns(t, c[i], h1, e)) by {
            if tree::owns(t, c[i], h1, e) {
                assert(tree::owns(t, c[i], h1, e) && tree::owns(t, c[i + 1], h1, e));
            }
        }
    }
    assert(!tree::owns(t, c[i], h1, p));
}

/// What is kept around a child is kept around the branch.
proof fn rest_kept_up(
    m: Map<u32, Seq<u8>>,
    m2: Map<u32, Seq<u8>>,
    p: u32,
    h: nat,
    h1: nat,
    lo: Option<u64>,
    hi: Option<u64>,
    end: u32,
    i: int,
)
    requires
        h == h1 + 1,
        ready(m, p, h, lo, hi, end),
        0 <= i < btree::view_of(m)[p]->children.len(),
        ({
            let t = btree::view_of(m);
            let c = t[p]->children;
            rest_kept(m, m2, c[i], h1, tree::kid_end(t, c, h1, i, end))
        }),
    ensures
        rest_kept(m, m2, p, h, end),
{
    kid_ready(m, p, h, h1, lo, hi, end, i);
    let t = btree::view_of(m);
    let c = t[p]->children;
    assert forall|q: u32| #[trigger]
        m.contains_key(q) && !tree::owns(t, p, h, q) implies m2.contains_key(q) && (m2[q] == m[q]
        || (q == end && end != 0 && relinked(m[q], m2[q]))) by {
        assert(!tree::owns(t, c[i], h1, q));
    }
}

/// A branch whose child took a row.
proof fn branch_grew(
    m: Map<u32, Seq<u8>>,
    m2: Map<u32, Seq<u8>>,
    p: u32,
    h: nat,
    h1: nat,
    lo: Option<u64>,
    hi: Option<u64>,
    end: u32,
    i: int,
    k: u64,
    cell: Seq<u8>,
)
    requires
        h == h1 + 1,
        ready(m, p, h, lo, hi, end),
        0 <= i < btree::view_of(m)[p]->children.len(),
        i == tree::route(btree::view_of(m)[p]->keys, k),
        ({
            let t = btree::view_of(m);
            let c = t[p]->children;
            let ks = t[p]->keys;
            grown(
                m,
                m2,
                c[i],
                h1,
                tree::kid_lo(ks, lo, i),
                tree::kid_hi(ks, hi, i),
                tree::kid_end(t, c, h1, i, end),
                k,
                cell,
            )
        }),
    ensures
        grown(m, m2, p, h, lo, hi, end, k, cell),
{
    reveal(grown);
    let t = btree::view_of(m);
    let t2 = btree::view_of(m2);
    let c = t[p]->children;
    let ks = t[p]->keys;
    kid_ready(m, p, h, h1, lo, hi, end, i);
    rest_kept_nodes(m, m2, c[i], h1, tree::kid_end(t, c, h1, i, end));
    rest_kept_up(m, m2, p, h, h1, lo, hi, end, i);
    tree::child_changed(t, t2, p, h, h1, lo, hi, end, i);
    tree::branch_facts(t, p, h, h1);
    assert forall|k2: u64| tree::in_range(lo, hi, k2) implies #[trigger] tree::find(t2, p, h, k2)
        == if k2 == k {
        Some(cell)
    } else {
        tree::find(t, p, h, k2)
    } by {
        if tree::route(ks, k2) == i {
            tree::route_in_kid(ks, k2, lo, hi);
            assert(tree::find(t2, c[i], h1, k2) == if k2 == k {
                Some(cell)
            } else {
                tree::find(t, c[i], h1, k2)
            });
            assert(tree::find(t, p, h, k2) == tree::find(t, c[i], h1, k2));
        }
    }
}

/// A branch that took the new half of a child.
proof fn branch_took(
    m: Map<u32, Seq<u8>>,
    m2: Map<u32, Seq<u8>>,
    m3: Map<u32, Seq<u8>>,
    p: u32,
    h: nat,
    h1: nat,
    lo: Option<u64>,
    hi: Option<u64>,
    end: u32,
    i: int,
    n: u32,
    sep: u64,
    k: u64,
    cell: Seq<u8>,
)
    requires
        h == h1 + 1,
        ready(m, p, h, lo, hi, end),
        0 <= i < btree::view_of(m)[p]->children.len(),
        i == tree::route(btree::view_of(m)[p]->keys, k),
        ({
            let t = btree::view_of(m);
            let c = t[p]->children;
            let ks = t[p]->keys;
            &&& parted(
                m,
                m2,
                c[i],
                n,
                h1,
                tree::kid_lo(ks, lo, i),
                tree::kid_hi(ks, hi, i),
                tree::kid_end(t, c, h1, i, end),
                sep,
                k,
                cell,
            )
            &&& m3 == m2.insert(p, m3[p])
            &&& btree_node::node_of(m3[p]) == (Node::<u64, Seq<u8>>::Branch {
                children: c.insert(i + 1, n),
                keys: ks.insert(i, sep),
            })
        }),
    ensures
        grown(m, m3, p, h, lo, hi, end, k, cell),
{
    reveal(grown);
    reveal(parted);
    let t = btree::view_of(m);
    let t2 = btree::view_of(m2);
    let t3 = btree::view_of(m3);
    let c = t[p]->children;
    let ks = t[p]->keys;
    kid_ready(m, p, h, h1, lo, hi, end, i);
    rest_kept_up(m, m2, p, h, h1, lo, hi, end, i);
    assert(t3 =~= t2.insert(p, t3[p]));
    tree::child_split(t, t2, t3, p, h, h1, lo, hi, end, i, n, sep);
    tree::branch_facts(t, p, h, h1);
    split_found(t, t2, t3, p, h, h1, lo, hi, i, n, sep, k, cell);
    assert forall|q: u32| #[trigger]
        m.contains_key(q) && !tree::owns(t, p, h, q) implies m3.contains_key(q) && (m3[q] == m[q]
        || (q == end && end != 0 && relinked(m[q], m3[q]))) by {
        assert(q != p);
    }
}

/// Lookups in a branch that took the new half of a child.
proof fn split_found(
    t: Map<u32, Node<u64, Seq<u8>>>,
    t2: Map<u32, Node<u64, Seq<u8>>>,
    t3: Map<u32, Node<u64, Seq<u8>>>,
    p: u32,
    h: nat,
    h1: nat,
    lo: Option<u64>,
    hi: Option<u64>,
    i: int,
    n: u32,
    sep: u64,
    k: u64,
    cell: Seq<u8>,
)
    requires
        h == h1 + 1,
        t[p] is Branch,
        i == tree::route(t[p]->keys, k),
        forall|k2: u64|
            tree::in_range(tree::kid_lo(t[p]->keys, lo, i), tree::kid_hi(t[p]->keys, hi, i), k2)
                ==> #[trigger] tree::split_find(t2, t[p]->children[i], n, h1, sep, k2) == if k2
                == k {
                Some(cell)
            } else {
                tree::find(t, t[p]->children[i], h1, k2)
            },
        forall|k2: u64|
            tree::in_range(lo, hi, k2) ==> #[trigger] tree::find(t3, p, h, k2) == if tree::route(
                t[p]->keys,
                k2,
            ) == i {
                tree::split_find(t2, t[p]->children[i], n, h1, sep, k2)
            } else {
                tree::find(t, p, h, k2)
            },
    ensures
        forall|k2: u64|
            tree::in_range(lo, hi, k2) ==> #[trigger] tree::find(t3, p, h, k2) == if k2 == k {
                Some(cell)
            } else {
                tree::find(t, p, h, k2)
            },
{
    let ks = t[p]->keys;
    let c = t[p]->children;
    tree::branch_facts(t, p, h, h1);
    assert forall|k2: u64| tree::in_range(lo, hi, k2) implies #[trigger] tree::find(t3, p, h, k2)
        == if k2 == k {
        Some(cell)
    } else {
        tree::find(t, p, h, k2)
    } by {
        if tree::route(ks, k2) == i {
            tree::route_in_kid(ks, k2, lo, hi);
            assert(tree::split_find(t2, c[i], n, h1, sep, k2) == if k2 == k {
                Some(cell)
            } else {
                tree::find(t, c[i], h1, k2)
            });
            assert(tree::find(t, p, h, k2) == tree::find(t, c[i], h1, k2));
        }
    }
}

/// A branch that took the new half of a child and split itself.
proof fn branch_parted(
    m: Map<u32, Seq<u8>>,
    m2: Map<u32, Seq<u8>>,
    m4: Map<u32, Seq<u8>>,
    p: u32,
    n2: u32,
    h: nat,
    h1: nat,
    lo: Option<u64>,
    hi: Option<u64>,
    end: u32,
    i: int,
    n: u32,
    sep: u64,
    mid: int,
    k: u64,
    cell: Seq<u8>,
)
    requires
        h == h1 + 1,
        ready(m, p, h, lo, hi, end),
        0 <= i < btree::view_of(m)[p]->children.len(),
        i == tree::route(btree::view_of(m)[p]->keys, k),
        !m.contains_key(n2),
        !m2.contains_key(n2),
        m2.contains_key(p),
        ({
            let t = btree::view_of(m);
            let c = t[p]->children;
            let ks = t[p]->keys;
            let c2 = c.insert(i + 1, n);
            let k2 = ks.insert(i, sep);
            &&& parted(
                m,
                m2,
                c[i],
                n,
                h1,
                tree::kid_lo(ks, lo, i),
                tree::kid_hi(ks, hi, i),
                tree::kid_end(t, c, h1, i, end),
                sep,
                k,
                cell,
            )
            &&& 0 < mid < k2.len() - 1
            &&& m4 == m2.insert(p, m4[p]).insert(n2, m4[n2])
            &&& btree_node::node_of(m4[p]) == (Node::<u64, Seq<u8>>::Branch {
                children: c2.subrange(0, mid + 1),
                keys: k2.subrange(0, mid),
            })
            &&& btree_node::node_of(m4[n2]) == (Node::<u64, Seq<u8>>::Branch {
                children: c2.subrange(mid + 1, c2.len() as int),
                keys: k2.subrange(mid + 1, k2.len() as int),
            })
        }),
    ensures
        parted(
            m,
            m4,
            p,
            n2,
            h,
            lo,
            hi,
            end,
            btree::view_of(m)[p]->keys.insert(i, sep)[mid],
            k,
            cell,
        ),
{
    reveal(parted);
    let t = btree::view_of(m);
    let t2 = btree::view_of(m2);
    let t4 = btree::view_of(m4);
    let c = t[p]->children;
    let ks = t[p]->keys;
    let node = Node::<u64, Seq<u8>>::Branch {
        children: c.insert(i + 1, n),
        keys: ks.insert(i, sep),
    };
    let t3 = t2.insert(p, node);
    kid_ready(m, p, h, h1, lo, hi, end, i);
    rest_kept_up(m, m2, p, h, h1, lo, hi, end, i);
    tree::child_split(t, t2, t3, p, h, h1, lo, hi, end, i, n, sep);
    split_found(t, t2, t3, p, h, h1, lo, hi, i, n, sep, k, cell);
    assert(t4 =~= t2.insert(p, t4[p]).insert(n2, t4[n2]));
    tree::branch_split(t, t3, t4, p, n2, h, h1, lo, hi, end, mid);
    let sep2 = node->keys[mid];
    assert forall|k2: u64| tree::in_range(lo, hi, k2) implies #[trigger] tree::split_find(
        t4,
        p,
        n2,
        h,
        sep2,
        k2,
    ) == if k2 == k {
        Some(cell)
    } else {
        tree::find(t, p, h, k2)
    } by {
        assert(tree::split_find(t4, p, n2, h, sep2, k2) == tree::find(t3, p, h, k2));
    }
    assert forall|q: u32| #[trigger]
        m.contains_key(q) && !tree::owns(t, p, h, q) implies m4.contains_key(q) && (m4[q] == m[q]
        || (q == end && end != 0 && relinked(m[q], m4[q]))) by {
        assert(q != p);
    }
}

/// Adds a child to a branch, and splits it if it is full.
fn insert_into_branch(
    guard: &mut WriteGuard,
    page_no: u32,
    child_idx: usize,
    separator: u64,
    new_child: u32,
) -> (r: Result<InsertResult>)
    requires
        old(guard).wf(),
    ensures
        r is Ok && file::tidy(old(guard).pages()) ==> file::tidy(final(guard).pages()),
        final(guard).wf(),
        final(guard).total() >= old(guard).total(),
        final(guard).total() <= old(guard).total() + 1,
        final(guard).inner().contents() == old(guard).inner().contents(),
        file::grounded(old(guard).inner(), final(guard).inner()),
        file::trim_kept(*old(guard), *final(guard)),
        final(guard).inner().count() == old(guard).inner().count(),
        fresh(old(guard).pages(), final(guard).pages(), old(guard).total()),
        ({
            let m = old(guard).pages();
            let m2 = final(guard).pages();
            let c2 = btree_node::children_of(m[page_no]).insert(child_idx + 1, new_child);
            let k2 = btree_node::keys_of(m[page_no]).insert(child_idx as int, separator);
            m.contains_key(page_no) && btree_node::branch_ok(m[page_no]) && child_idx
                <= page::count_of(m[page_no]) ==> match r {
                Ok(InsertResult::Fit) => {
                    &&& m2 == m.insert(page_no, m2[page_no])
                    &&& btree_node::node_of(m2[page_no]) == (Node::<u64, Seq<u8>>::Branch {
                        children: c2,
                        keys: k2,
                    })
                },
                Ok(InsertResult::Split { new_page, separator }) => {
                    let mid = k2.len() as int / 2;
                    &&& new_page == old(guard).total()
                    &&& separator == k2[mid]
                    &&& 0 < mid < k2.len() - 1
                    &&& m2 == m.insert(page_no, m2[page_no]).insert(new_page, m2[new_page])
                    &&& btree_node::node_of(m2[page_no]) == (Node::<u64, Seq<u8>>::Branch {
                        children: c2.subrange(0, mid + 1),
                        keys: k2.subrange(0, mid),
                    })
                    &&& btree_node::node_of(m2[new_page]) == (Node::<u64, Seq<u8>>::Branch {
                        children: c2.subrange(mid + 1, c2.len() as int),
                        keys: k2.subrange(mid + 1, k2.len() as int),
                    })
                },
                Err(e) => e is Corruption && old(guard).total() == u32::MAX,
            }
        }),
{
    proof {
        guard.pages_bounded();
    }
    let page: Page = guard.read_page_cloned(page_no)?;
    if !check_branch(&page) {
        return Err(corruption("malformed branch page"));
    }
    let num_keys: usize = page.num_rows() as usize;
    if child_idx > num_keys {
        return Err(corruption("branch lost a child"));
    }
    let max_keys: usize = (guard.page_end() - PAGE_HEADER_SIZE - 4) / BRANCH_ENTRY_SIZE;
    if num_keys < max_keys {
        let mut wp: Page = guard.write_page(page_no)?;
        insert_branch_entry(&mut wp, child_idx, separator, new_child);
        let ghost w0 = wp.data@;
        wp.update_checksum();
        proof {
            btree_node::sealed_leaf(w0, wp.data@);
            page::trimmed_same(w0, wp.data@);
            btree_node::leaf_basics(wp.data@);
            file::tidy_page(guard.pages(), page_no);
            file::tidy_put(guard.pages(), page_no, wp.data@);
        }
        guard.put_page(page_no, wp);
        return Ok(InsertResult::Fit);
    }
    let (mut children, mut keys): (Vec<u32>, Vec<u64>) = collect_branch_flat(&page);
    keys.insert(child_idx, separator);
    children.insert(child_idx + 1, new_child);
    let total_keys: usize = keys.len();
    let mid: usize = total_keys / 2;
    let split_key: u64 = keys[mid];
    let mut left_page: Page = guard.write_page(page_no)?;
    rebuild_branch_flat(&mut left_page, &children[0..mid + 1], &keys[0..mid]);
    let ghost l0 = left_page.data@;
    left_page.update_checksum();
    proof {
        btree_node::sealed_leaf(l0, left_page.data@);
        page::trimmed_same(l0, left_page.data@);
        btree_node::leaf_basics(left_page.data@);
    }
    guard.put_page(page_no, left_page);
    let new_page_no: u32 = guard.allocate_page()?;
    let mut new_page: Page = Page::new_branch();
    rebuild_branch_flat(
        &mut new_page,
        &children[mid + 1..children.len()],
        &keys[mid + 1..keys.len()],
    );
    let ghost r0 = new_page.data@;
    new_page.update_checksum();
    proof {
        btree_node::sealed_leaf(r0, new_page.data@);
        page::trimmed_same(r0, new_page.data@);
        btree_node::leaf_basics(new_page.data@);
    }
    let ghost before = guard.pages();
    guard.put_page(new_page_no, new_page);
    proof {
        let m2 = guard.pages();
        file::tidy_page(old(guard).pages(), page_no);
        file::tidy_pair(
            old(guard).pages(),
            new_page_no,
            Seq::new(4096, |i: int| 0u8),
            page_no,
            left_page.data@,
            new_page.data@,
        );
        assert(m2 =~= old(guard).pages().insert(page_no, m2[page_no]).insert(
            new_page_no,
            m2[new_page_no],
        ));
    }
    Ok(InsertResult::Split { new_page: new_page_no, separator: split_key })
}

/// Inserts a row below a page.
fn insert_recursive(
    guard: &mut WriteGuard,
    page_no: u32,
    rowid: u64,
    row_data: &[u8],
    depth: usize,
    Ghost(h): Ghost<nat>,
    Ghost(lo): Ghost<Option<u64>>,
    Ghost(hi): Ghost<Option<u64>>,
    Ghost(end): Ghost<u32>,
) -> (r: Result<(InsertResult, Ghost<Seq<u8>>)>)
    requires
        old(guard).wf(),
        8 <= row_data@.len() <= u32::MAX,
        btree_node::id_of(row_data@) == rowid,
        depth <= MAX_TREE_DEPTH,
    ensures
        r is Ok && file::tidy(old(guard).pages()) ==> file::tidy(final(guard).pages()),
        final(guard).wf(),
        final(guard).total() >= old(guard).total(),
        ready(old(guard).pages(), page_no, h, lo, hi, end) && tree::in_range(lo, hi, rowid)
            ==> final(guard).total() <= old(guard).total() + h + 1 + pages_for(
            row_data@.len() as int,
        ),
        final(guard).inner().contents() == old(guard).inner().contents(),
        file::grounded(old(guard).inner(), final(guard).inner()),
        file::trim_kept(*old(guard), *final(guard)),
        final(guard).inner().count() == old(guard).inner().count(),
        fresh(old(guard).pages(), final(guard).pages(), old(guard).total()),
        ready(old(guard).pages(), page_no, h, lo, hi, end) && tree::in_range(lo, hi, rowid)
            ==> inserted(
            old(guard).pages(),
            final(guard).pages(),
            page_no,
            h,
            lo,
            hi,
            end,
            rowid,
            row_data@,
            old(guard).total(),
            old(guard).cap(),
            depth as int,
            r,
        ),
    decreases MAX_TREE_DEPTH - depth,
{
    let ghost m = guard.pages();
    let ghost t = btree::view_of(m);
    let ghost total0 = guard.total();
    let ghost ok = ready(m, page_no, h, lo, hi, end) && tree::in_range(lo, hi, rowid);
    if depth >= MAX_TREE_DEPTH {
        return Err(corruption("B+ tree depth exceeds maximum in insert_recursive"));
    }
    proof {
        guard.pages_bounded();
        if ok {
            tree::wf_shape(t, page_no, h, lo, hi, end);
            btree_node::leaf_basics(m[page_no]);
            assert(t[page_no] == btree_node::node_of(m[page_no]));
        }
    }
    let page: Page = guard.read_page_cloned(page_no)?;
    if page.is_leaf() {
        if !check_row_leaf(&page) {
            return Err(corruption("malformed leaf page"));
        }
        return insert_into_leaf(
            guard,
            page_no,
            &page,
            rowid,
            row_data,
            Ghost(lo),
            Ghost(hi),
            Ghost(end),
            Ghost(depth as int),
        );
    }
    if !check_branch(&page) {
        return Err(corruption("malformed branch page"));
    }
    let (child_idx, child): (usize, u32) = find_child(&page, rowid);
    let ghost i = child_idx as int;
    let ghost h1 = (h - 1) as nat;
    let ghost c = t[page_no]->children;
    let ghost ks = t[page_no]->keys;
    let ghost lo1 = tree::kid_lo(ks, lo, i);
    let ghost hi1 = tree::kid_hi(ks, hi, i);
    let ghost end1 = tree::kid_end(t, c, h1, i, end);
    proof {
        if ok {
            tree::wf_branch(t, page_no, h, h1, lo, hi, end);
            kid_ready(m, page_no, h, h1, lo, hi, end, i);
            tree::route_in_kid(ks, rowid, lo, hi);
            tree::branch_facts(t, page_no, h, h1);
            assert(tree::find(t, page_no, h, rowid) == tree::find(t, c[i], h1, rowid));
            assert(kept_inline(t, page_no, h, rowid, row_data@, guard.cap()) == kept_inline(
                t,
                c[i],
                h1,
                rowid,
                row_data@,
                guard.cap(),
            ));
        }
    }
    let below: Result<(InsertResult, Ghost<Seq<u8>>)> = insert_recursive(
        guard,
        child,
        rowid,
        row_data,
        depth + 1,
        Ghost(h1),
        Ghost(lo1),
        Ghost(hi1),
        Ghost(end1),
    );
    let ghost m2 = guard.pages();
    match below {
        Err(e) => Err(e),
        Ok((InsertResult::Fit, cell)) => {
            proof {
                if ok {
                    branch_grew(m, m2, page_no, h, h1, lo, hi, end, i, rowid, cell@);
                }
            }
            Ok((InsertResult::Fit, cell))
        },
        Ok((InsertResult::Split { new_page, separator }, cell)) => {
            proof {
                guard.pages_bounded();
                if ok {
                    parent_kept(m, m2, page_no, h, h1, lo, hi, end, i, new_page, separator, rowid, cell@);
                }
            }
            let res: InsertResult = insert_into_branch(
                guard,
                page_no,
                child_idx,
                separator,
                new_page,
            )?;
            proof {
                if ok {
                    let m3 = guard.pages();
                    let mid = ks.insert(i, separator).len() as int / 2;
                    let now_ready = ready(m, page_no, h, lo, hi, end);
                    match res {
                        InsertResult::Fit => {
                            branch_took(
                                m,
                                m2,
                                m3,
                                page_no,
                                h,
                                h1,
                                lo,
                                hi,
                                end,
                                i,
                                new_page,
                                separator,
                                rowid,
                                cell@,
                            );
                        },
                        InsertResult::Split { new_page: n2, separator: s2 } => {
                            branch_parted(
                                m,
                                m2,
                                m3,
                                page_no,
                                n2,
                                h,
                                h1,
                                lo,
                                hi,
                                end,
                                i,
                                new_page,
                                separator,
                                mid,
                                rowid,
                                cell@,
                            );
                        },
                    }
                    branch_written(m2, m3, page_no);
                    stored_kept(m2, m3, cell@, row_data@, guard.sealed());
                }
            }
            Ok((res, cell))
        },
    }
}

/// While a child changes, the branch stays.
proof fn parent_kept(
    m: Map<u32, Seq<u8>>,
    m2: Map<u32, Seq<u8>>,
    p: u32,
    h: nat,
    h1: nat,
    lo: Option<u64>,
    hi: Option<u64>,
    end: u32,
    i: int,
    n: u32,
    sep: u64,
    k: u64,
    cell: Seq<u8>,
)
    requires
        h == h1 + 1,
        ready(m, p, h, lo, hi, end),
        0 <= i < btree::view_of(m)[p]->children.len(),
        ({
            let t = btree::view_of(m);
            let c = t[p]->children;
            let ks = t[p]->keys;
            parted(
                m,
                m2,
                c[i],
                n,
                h1,
                tree::kid_lo(ks, lo, i),
                tree::kid_hi(ks, hi, i),
                tree::kid_end(t, c, h1, i, end),
                sep,
                k,
                cell,
            )
        }),
    ensures
        m2.contains_key(p),
        btree_node::node_of(m2[p]) == btree_node::node_of(m[p]),
        btree_node::branch_ok(m2[p]),
        btree_node::children_of(m2[p]) == btree::view_of(m)[p]->children,
        btree_node::keys_of(m2[p]) == btree::view_of(m)[p]->keys,
{
    reveal(parted);
    let t = btree::view_of(m);
    let c = t[p]->children;
    kid_ready(m, p, h, h1, lo, hi, end, i);
    tree::wf_branch(t, p, h, h1, lo, hi, end);
    assert(m.contains_key(p) && !tree::owns(t, c[i], h1, p));
    if m2[p] != m[p] {
        relinked_node(m[p], m2[p]);
    }
    assert(t[p] == btree_node::node_of(m[p]));
}

/// Writing a branch and a new page leaves the overflow pages.
proof fn branch_written(m: Map<u32, Seq<u8>>, m2: Map<u32, Seq<u8>>, p: u32)
    requires
        m.contains_key(p),
        btree_node::branch_ok(m[p]),
        forall|q: u32| #[trigger] m.contains_key(q) && q != p ==> m2.contains_key(q) && m2[q] == m[q],
    ensures
        overflow_kept(m, m2),
{
    assert forall|q: u32| #[trigger]
        m.contains_key(q) && page::flags_of(m[q]) == page::PAGE_OVERFLOW implies m2.contains_key(q)
        && m2[q] == m[q] by {
        overflow_no_node(m[q]);
    }
}

// ---------------------------------------------------------------------------
// The writer
// ---------------------------------------------------------------------------

/// A tree changed into another one: only its own pages and new ones were
/// written, and the cell under `k` is the only one that differs.
pub open spec fn tree_put(
    m: Map<u32, Seq<u8>>,
    m2: Map<u32, Seq<u8>>,
    root: u32,
    root2: u32,
    k: u64,
    cell: Option<Seq<u8>>,
) -> bool {
    let t = btree::view_of(m);
    let t2 = btree::view_of(m2);
    &&& btree::is_tree(m2, root2)
    &&& only_tree(m, m2, root, root2)
    &&& forall|k2: u64| #[trigger]
        btree::cell_at(m2, root2, k2) == if k2 == k {
            cell
        } else {
            btree::cell_at(m, root, k2)
        }
}

/// Pages outside the tree are as they were, and the new tree consists of pages
/// of the old one and of new pages.
pub open spec fn only_tree(
    m: Map<u32, Seq<u8>>,
    m2: Map<u32, Seq<u8>>,
    root: u32,
    root2: u32,
) -> bool {
    let t = btree::view_of(m);
    let t2 = btree::view_of(m2);
    &&& forall|q: u32| #[trigger]
        m.contains_key(q) && !tree::has(t, root, q) ==> m2.contains_key(q) && m2[q] == m[q]
    &&& forall|q: u32| #[trigger] tree::has(t2, root2, q) ==> tree::has(t, root, q) || !m.contains_key(q)
}

/// A root that stays.
proof fn root_stays(
    m: Map<u32, Seq<u8>>,
    m2: Map<u32, Seq<u8>>,
    root: u32,
    h: nat,
    k: u64,
    cell: Option<Seq<u8>>,
    total: int,
)
    requires
        tree::is_root(btree::view_of(m), root, h),
        tree::wf(btree::view_of(m2), root, h, None, None, 0),
        tree::first_leaf(btree::view_of(m2), root, h) == tree::first_leaf(
            btree::view_of(m),
            root,
            h,
        ),
        tree::claims(btree::view_of(m), btree::view_of(m2), root, root, h),
        rest_kept(m, m2, root, h, 0),
        fresh(m, m2, total),
        total >= 1,
        forall|k2: u64|
            tree::in_range(None, None, k2) ==> #[trigger] tree::find(
                btree::view_of(m2),
                root,
                h,
                k2,
            ) == if k2 == k {
                cell
            } else {
                tree::find(btree::view_of(m), root, h, k2)
            },
    ensures
        tree_put(m, m2, root, root, k, cell),
        tree::height(btree::view_of(m2), root) == h,
{
    let t = btree::view_of(m);
    let t2 = btree::view_of(m2);
    tree::owned_exist(t2, root, h, None, None, 0);
    tree::height_is(t, root, h);
    assert(tree::is_root(t2, root, h)) by {
        if tree::owns(t2, root, h, 0) {
            assert(m2.contains_key(0));
            assert(t.contains_key(0));
        }
    }
    tree::height_is(t2, root, h);
    assert forall|q: u32| #[trigger]
        m.contains_key(q) && !tree::has(t, root, q) implies m2.contains_key(q) && m2[q] == m[q] by {
        assert(!tree::owns(t, root, h, q));
    }
    assert forall|q: u32| #[trigger] tree::has(t2, root, q) implies tree::has(t, root, q)
        || !m.contains_key(q) by {
        assert(tree::owns(t2, root, h, q));
    }
    assert forall|k2: u64| #[trigger] btree::cell_at(m2, root, k2) == if k2 == k {
        cell
    } else {
        btree::cell_at(m, root, k2)
    } by {
        assert(tree::in_range(None::<u64>, None, k2));
        assert(tree::find(t2, root, h, k2) == if k2 == k {
            cell
        } else {
            tree::find(t, root, h, k2)
        });
    }
}

/// A root that split gets a new root above it.
proof fn root_replaced(
    m: Map<u32, Seq<u8>>,
    m2: Map<u32, Seq<u8>>,
    m3: Map<u32, Seq<u8>>,
    root: u32,
    n: u32,
    r: u32,
    h: nat,
    sep: u64,
    k: u64,
    cell: Seq<u8>,
    total: int,
)
    requires
        tree::is_root(btree::view_of(m), root, h),
        parted(m, m2, root, n, h, None, None, 0, sep, k, cell),
        !m.contains_key(r),
        !m2.contains_key(r),
        m3 == m2.insert(r, m3[r]),
        btree_node::node_of(m3[r]) == (Node::<u64, Seq<u8>>::Branch {
            children: seq![root, n],
            keys: seq![sep],
        }),
        fresh(m, m3, total),
        total >= 1,
    ensures
        tree_put(m, m3, root, r, k, Some(cell)),
        tree::height(btree::view_of(m3), r) == h + 1,
{
    reveal(parted);
    let t = btree::view_of(m);
    let t2 = btree::view_of(m2);
    let t3 = btree::view_of(m3);
    let g = (h + 1) as nat;
    assert(t3 =~= t2.insert(r, t3[r]));
    tree::root_grown(t, t2, t3, root, n, r, g, h, sep);
    tree::owned_exist(t3, r, g, None, None, 0);
    tree::height_is(t, root, h);
    tree::branch_facts(t3, r, g, h);
    assert(tree::is_root(t3, r, g)) by {
        if tree::owns(t3, r, g, 0) {
            assert(m3.contains_key(0));
            assert(t.contains_key(0));
            assert(tree::owns(t, root, h, 0));
            assert(seq![root, n][0] == root);
            // the first leaf of the old root is still the first leaf
            assert(tree::first_leaf(t2, root, h) == 0);
            assert forall|q: u32| #[trigger] tree::owns(t2, root, h, q) implies t3.contains_key(q)
                && t3[q] == t2[q] by {
                tree::owned_exist(t2, root, h, None, Some(sep), tree::first_leaf(t2, n, h));
            }
            tree::frame(t2, t3, root, h, None, Some(sep), tree::first_leaf(t2, n, h));
        }
    }
    tree::height_is(t3, r, g);
    assert forall|q: u32| #[trigger]
        m.contains_key(q) && !tree::has(t, root, q) implies m3.contains_key(q) && m3[q] == m[q] by {
        assert(!tree::owns(t, root, h, q));
    }
    assert forall|q: u32| #[trigger] tree::has(t3, r, q) implies tree::has(t, root, q)
        || !m.contains_key(q) by {
        assert(tree::owns(t3, r, g, q));
    }
    assert forall|k2: u64| #[trigger] btree::cell_at(m3, r, k2) == if k2 == k {
        Some(cell)
    } else {
        btree::cell_at(m, root, k2)
    } by {
        assert(tree::in_range(None::<u64>, None, k2));
        assert(tree::find(t3, r, g, k2) == tree::split_find(t2, root, n, h, sep, k2));
        assert(tree::split_find(t2, root, n, h, sep, k2) == if k2 == k {
            Some(cell)
        } else {
            tree::find(t, root, h, k2)
        });
    }
}

/// Write access to a tree, through the guard that the methods are given.
pub struct BTreeWriter {
    root: u32,
}

/// The outcome of [`BTreeWriter::insert`].
pub open spec fn put_outcome(
    m: Map<u32, Seq<u8>>,
    m2: Map<u32, Seq<u8>>,
    root: u32,
    root2: u32,
    k: u64,
    row: Seq<u8>,
    total: int,
    cap: int,
    r: Result<u32>,
) -> bool {
    let t = btree::view_of(m);
    let h = tree::height(t, root);
    match r {
        Ok(p) => {
            &&& p == root2
            &&& btree::cell_at(m, root, k) is None
            &&& exists|cell: Seq<u8>|
                stored(m2, cell, row, cap < 4092) && #[trigger] tree_put(
                    m,
                    m2,
                    root,
                    root2,
                    k,
                    Some(cell),
                ) && (kept_inline(t, root, h, k, row, cap) ==> cell == row)
            &&& tree::height(btree::view_of(m2), root2) <= h + 1
        },
        Err(BoogyError::DuplicateKey(id)) => {
            &&& id == k
            &&& btree::cell_at(m, root, k) is Some
            &&& m2 == m
            &&& root2 == root
        },
        Err(BoogyError::PageFull) => {
            &&& btree::cell_at(m, root, k) is None
            &&& !has_room(t[tree::leaf_for(t, root, h, k)]->items, k, cell_len(row), cap)
            &&& root2 == root
        },
        Err(BoogyError::Corruption(_)) => {
            &&& root2 == root
            &&& {
                ||| h >= MAX_TREE_DEPTH
                ||| btree::cell_at(m, root, k) is None && total + h + 2 + pages_for(
                    row.len() as int,
                ) > u32::MAX
            }
        },
        Err(_) => false,
    }
}

impl BTreeWriter {
    /// The root of the tree.
    pub closed spec fn root_no(&self) -> u32 {
        self.root
    }

    pub fn new(root: u32) -> (w: BTreeWriter)
        ensures
            w.root_no() == root,
    {
        BTreeWriter { root }
    }

    pub fn root_page(&self) -> (p: u32)
        ensures
            p == self.root_no(),
    {
        self.root
    }

    /// Creates an empty tree.
    pub fn create(guard: &mut WriteGuard) -> (r: Result<u32>)
        requires
            old(guard).wf(),
        ensures
            r is Ok && file::tidy(old(guard).pages()) ==> file::tidy(final(guard).pages()),
            final(guard).wf(),
            final(guard).inner().contents() == old(guard).inner().contents(),
            file::grounded(old(guard).inner(), final(guard).inner()),
            file::trim_kept(*old(guard), *final(guard)),
            final(guard).inner().count() == old(guard).inner().count(),
            r is Ok <==> old(guard).total() < u32::MAX,
            r matches Ok(p) ==> {
                let m2 = final(guard).pages();
                let t2 = btree::view_of(m2);
                &&& p == old(guard).total()
                &&& final(guard).total() == old(guard).total() + 1
                &&& m2 == old(guard).pages().insert(p, m2[p])
                &&& final(guard).inner().changed() == old(guard).inner().changed().insert(p, m2[p])
                &&& file::valid_image(m2[p])
                &&& page::trimmed(m2[p])
                &&& btree::is_tree(m2, p)
                &&& tree::height(t2, p) == 0
                &&& btree::all_cells(m2, p).len() == 0
                &&& forall|k: u64| (#[trigger] btree::cell_at(m2, p, k)) is None
                &&& forall|q: u32| #[trigger] tree::has(t2, p, q) <==> q == p
            },
            r matches Err(e) ==> e is Corruption && *final(guard) == *old(guard),
    {
        proof {
            guard.pages_bounded();
        }
        let page_no: u32 = guard.allocate_page()?;
        let page: Page = Page::new_leaf();
        let ghost data = page.data@;
        guard.put_page(page_no, page);
        proof {
            let m2 = guard.pages();
            let t2 = btree::view_of(m2);
            assert(m2 =~= old(guard).pages().insert(page_no, data));
            assert(guard.inner().changed() =~= old(guard).inner().changed().insert(page_no, data));
            file::tidy_put(old(guard).pages(), page_no, data);
            btree_node::empty_leaf(data);
            assert(t2[page_no] == btree_node::node_of(data));
            tree::wf_leaf(t2, page_no, None::<u64>, None, 0);
            tree::leaf_facts(t2, page_no);
            assert(tree::is_root(t2, page_no, 0));
            tree::height_is(t2, page_no, 0);
            assert forall|k: u64| (#[trigger] btree::cell_at(m2, page_no, k)) is None by {
                tree::item_find_none::<u64, Seq<u8>>(Seq::empty(), k);
                assert(tree::find(t2, page_no, 0, k) == tree::item_find(
                    t2[page_no]->items,
                    k,
                ));
            }
        }
        Ok(page_no)
    }

    /// Inserts a row. Returns the root, which may be a new one.
    pub fn insert(&mut self, guard: &mut WriteGuard, rowid: u64, row_data: &[u8]) -> (r: Result<u32>)
        requires
            old(guard).wf(),
            8 <= row_data@.len() <= u32::MAX,
            btree_node::id_of(row_data@) == rowid,
        ensures
            r is Ok && file::tidy(old(guard).pages()) ==> file::tidy(final(guard).pages()),
            final(guard).wf(),
            final(guard).total() >= old(guard).total(),
            final(guard).inner().contents() == old(guard).inner().contents(),
            file::grounded(old(guard).inner(), final(guard).inner()),
            file::trim_kept(*old(guard), *final(guard)),
            final(guard).inner().count() == old(guard).inner().count(),
            fresh(old(guard).pages(), final(guard).pages(), old(guard).total()),
            r matches Ok(p) ==> p == final(self).root_no(),
            r is Err ==> final(self).root_no() == old(self).root_no(),
            btree::is_tree(old(guard).pages(), old(self).root_no()) ==> final(guard).total() <= old(
                guard,
            ).total() + tree::height(btree::view_of(old(guard).pages()), old(self).root_no()) + 2
                + pages_for(row_data@.len() as int),
            btree::is_tree(old(guard).pages(), old(self).root_no()) ==> put_outcome(
                old(guard).pages(),
                final(guard).pages(),
                old(self).root_no(),
                final(self).root_no(),
                rowid,
                row_data@,
                old(guard).total(),
                old(guard).cap(),
                r,
            ),
    {
        let ghost m = guard.pages();
        let ghost t = btree::view_of(m);
        let ghost root = self.root;
        let ghost total = guard.total();
        let ghost h = tree::height(t, root);
        let ghost ok = btree::is_tree(m, root);
        proof {
            guard.pages_bounded();
            if ok {
                assert(tree::is_root(t, root, h));
                tree::wf_shape(t, root, h, None, None, 0);
                assert(m.contains_key(root));
                assert(tree::in_range(None::<u64>, None, rowid));
                assert(ready(m, root, h, None, None, 0));
            }
        }
        let res: Result<(InsertResult, Ghost<Seq<u8>>)> = insert_recursive(
            guard,
            self.root,
            rowid,
            row_data,
            0,
            Ghost(h),
            Ghost(None),
            Ghost(None),
            Ghost(0),
        );
        let ghost m2 = guard.pages();
        match res {
            Err(e) => Err(e),
            Ok((InsertResult::Fit, cell)) => {
                proof {
                    if ok {
                        reveal(grown);
                        root_stays(m, m2, root, h, rowid, Some(cell@), total);
                        assert(stored(m2, cell@, row_data@, guard.cap() < 4092));
                    }
                }
                Ok(self.root)
            },
            Ok((InsertResult::Split { new_page, separator }, cell)) => {
                proof {
                    guard.pages_bounded();
                }
                let new_root: u32 = guard.allocate_page()?;
                let mut root_page: Page = Page::new_branch();
                let ghost p0 = root_page.data@;
                write_branch_entry(&mut root_page, 0, self.root, separator);
                let ghost p1 = root_page.data@;
                set_branch_child(&mut root_page, 1, new_page);
                let ghost p2 = root_page.data@;
                root_page.set_num_rows(1);
                root_page.update_checksum();
                let ghost data = root_page.data@;
                guard.put_page(new_root, root_page);
                proof {
                    let m3 = guard.pages();
                    btree_node::two_children(p0, p1, p2, data, self.root, new_page, separator);
                    assert(m3 =~= m2.insert(new_root, data));
                    page::same_but_fields(p0, p1, 16, 12);
                    page::same_but_fields(p1, p2, 28, 4);
                    file::tidy_put(m2, new_root, data);
                    if ok {
                        root_replaced(
                            m,
                            m2,
                            m3,
                            root,
                            new_page,
                            new_root,
                            h,
                            separator,
                            rowid,
                            cell@,
                            total,
                        );
                        assert(overflow_kept(m2, m3));
                        stored_kept(m2, m3, cell@, row_data@, guard.sealed());
                        assert(stored(m3, cell@, row_data@, guard.cap() < 4092));
                    }
                }
                self.root = new_root;
                Ok(self.root)
            },
        }
    }

    /// Searches for a row, among changed pages too.
    pub fn search(&self, guard: &WriteGuard, rowid: u64) -> (r: Result<Option<Vec<u8>>>)
        ensures
            btree::found(guard.pages(), self.root_no(), rowid, r),
            r matches Err(e) ==> e is Corruption || e is Io,
    {
        search_in(guard, self.root, rowid)
    }

    /// All rows, among changed pages too.
    pub fn scan_all_w(&self, guard: &WriteGuard) -> (r: Result<Vec<(u64, Vec<u8>)>>)
        requires
            guard.wf(),
        ensures
            btree::scanned(guard.pages(), self.root_no(), r),
            r matches Err(e) ==> e is Corruption || e is Io,
    {
        scan_rows(guard, self.root)
    }
}

// ---------------------------------------------------------------------------
// Rewriting leaves
// ---------------------------------------------------------------------------

/// Leaf `p` was rewritten to hold other cells; nothing else changed.
pub open spec fn leaf_set(
    m: Map<u32, Seq<u8>>,
    m2: Map<u32, Seq<u8>>,
    p: u32,
    cells: Seq<Seq<u8>>,
) -> bool {
    &&& m2 == m.insert(p, m2[p])
    &&& btree_node::row_leaf(m2[p])
    &&& btree_node::cells(m2[p]) == cells
    &&& page::next_of(m2[p]) == page::next_of(m[p])
}

/// A rewritten leaf, seen as a node.
pub proof fn leaf_set_node(m: Map<u32, Seq<u8>>, m2: Map<u32, Seq<u8>>, p: u32, cells: Seq<Seq<u8>>)
    requires
        leaf_set(m, m2, p, cells),
        m.contains_key(p),
        btree_node::row_leaf(m[p]),
        forall|lo: Option<u64>, hi: Option<u64>| #[trigger]
            tree::items_ok(btree_node::items_of(m[p]), lo, hi) ==> tree::items_ok(
                btree_node::keyed(cells),
                lo,
                hi,
            ),
    ensures
        tree::rewritten(btree::view_of(m), btree::view_of(m2), p),
        btree::view_of(m)[p]->items == btree_node::items_of(m[p]),
        btree::view_of(m2)[p]->items == btree_node::keyed(cells),
{
    let t = btree::view_of(m);
    let t2 = btree::view_of(m2);
    assert(t[p] == btree_node::node_of(m[p]));
    assert(t2[p] == btree_node::node_of(m2[p]));
    assert(m2.contains_key(p)) by {
        assert(m.insert(p, m2[p]).contains_key(p));
    }
    assert(t[p]->items == btree_node::items_of(m[p]));
    assert(t2[p]->items == btree_node::keyed(cells));
    assert forall|lo: Option<u64>, hi: Option<u64>| #[trigger]
        tree::items_ok(t[p]->items, lo, hi) implies tree::items_ok(t2[p]->items, lo, hi) by {
        assert(tree::items_ok(btree_node::items_of(m[p]), lo, hi));
    }
    assert(tree::same_except(t, t2, p)) by {
        assert forall|q: u32| #[trigger] t.contains_key(q) && q != p implies t2.contains_key(q)
            && t2[q] == t[q] by {
            assert(m.contains_key(q));
            assert(m.insert(p, m2[p]).contains_key(q));
        }
    }
}

/// Leaves are no overflow pages.
pub proof fn leaf_set_overflow(m: Map<u32, Seq<u8>>, m2: Map<u32, Seq<u8>>, p: u32, cells: Seq<Seq<u8>>)
    requires
        leaf_set(m, m2, p, cells),
        m.contains_key(p),
        btree_node::row_leaf(m[p]),
    ensures
        overflow_kept(m, m2),
{
    assert forall|q: u32| #[trigger]
        m.contains_key(q) && page::flags_of(m[q]) == page::PAGE_OVERFLOW implies m2.contains_key(q)
        && m2[q] == m[q] by {
        overflow_no_node(m[q]);
    }
}

/// The rows in the leaf where a row id belongs.
pub open spec fn leaf_items(m: Map<u32, Seq<u8>>, root: u32, k: u64) -> Seq<(u64, Seq<u8>)> {
    let t = btree::view_of(m);
    t[tree::leaf_for(t, root, tree::height(t, root), k)]->items
}

/// Rows without the one under a row id.
pub open spec fn without_key(items: Seq<(u64, Seq<u8>)>, k: u64) -> Seq<(u64, Seq<u8>)> {
    items.remove(choose|i: int| 0 <= i < items.len() && (#[trigger] items[i]).0 == k)
}

proof fn leaf_without(m: Map<u32, Seq<u8>>, m2: Map<u32, Seq<u8>>, root: u32, p: u32, pos: int, k: u64)
    requires
        btree::is_tree(m, root),
        p == tree::leaf_for(
            btree::view_of(m),
            root,
            tree::height(btree::view_of(m), root),
            k,
        ),
        m.contains_key(p),
        btree_node::row_leaf(m[p]),
        tree::items_ok(btree_node::items_of(m[p]), None, None),
        0 <= pos < btree_node::cells(m[p]).len(),
        btree_node::id_of(btree_node::cells(m[p])[pos]) == k,
        leaf_set(m, m2, p, btree_node::cells(m[p]).remove(pos)),
        tree::height(btree::view_of(m2), root) == tree::height(btree::view_of(m), root),
    ensures
        leaf_items(m2, root, k) == without_key(leaf_items(m, root, k), k),
{
    let t = btree::view_of(m);
    let t2 = btree::view_of(m2);
    let h = tree::height(t, root);
    let cells2 = btree_node::cells(m[p]).remove(pos);
    let items = btree_node::items_of(m[p]);
    assert(tree::is_root(t, root, h));
    assert(btree_node::keyed(cells2) =~= items.remove(pos));
    assert forall|lo: Option<u64>, hi: Option<u64>| #[trigger]
        tree::items_ok(items, lo, hi) implies tree::items_ok(btree_node::keyed(cells2), lo, hi) by {
        tree::items_remove(items, lo, hi, pos);
    }
    leaf_set_node(m, m2, p, cells2);
    tree::leaf_for_rewritten(t, t2, p, root, h, None, None, 0, k);
    assert(items[pos].0 == k);
    let i = choose|i: int| 0 <= i < items.len() && (#[trigger] items[i]).0 == k;
    assert(i == pos);
}

/// A tree with one row less.
proof fn cell_removed(
    m: Map<u32, Seq<u8>>,
    m2: Map<u32, Seq<u8>>,
    root: u32,
    p: u32,
    pos: int,
    k: u64,
)
    requires
        btree::is_tree(m, root),
        p == tree::leaf_for(
            btree::view_of(m),
            root,
            tree::height(btree::view_of(m), root),
            k,
        ),
        btree_node::row_leaf(m[p]),
        0 <= pos < btree_node::cells(m[p]).len(),
        btree_node::id_of(btree_node::cells(m[p])[pos]) == k,
        leaf_set(m, m2, p, btree_node::cells(m[p]).remove(pos)),
    ensures
        tree_put(m, m2, root, root, k, None),
        tree::height(btree::view_of(m2), root) == tree::height(btree::view_of(m), root),
{
    let t = btree::view_of(m);
    let t2 = btree::view_of(m2);
    let h = tree::height(t, root);
    let cells2 = btree_node::cells(m[p]).remove(pos);
    let items = btree_node::items_of(m[p]);
    assert(tree::is_root(t, root, h));
    let j = tree::leaf_for_place(t, root, h, None, None, 0, k);
    tree::leaves_chained(t, root, h, None, None, 0);
    let ls = tree::leaves(t, root, h);
    assert(tree::linked(t, ls, 0, j));
    assert(tree::owns(t, root, h, ls[j]));
    assert(btree_node::keyed(cells2) =~= items.remove(pos));
    assert forall|lo: Option<u64>, hi: Option<u64>| #[trigger]
        tree::items_ok(items, lo, hi) implies tree::items_ok(btree_node::keyed(cells2), lo, hi) by {
        tree::items_remove(items, lo, hi, pos);
    }
    leaf_set_node(m, m2, p, cells2);
    tree::all_rewritten(t, t2, root, j);
    let a = tree::leaf_rows(t, ls.take(j));
    let b = tree::leaf_rows(t, ls.skip(j + 1));
    let all = btree::all_cells(m, root);
    let at = a.len() + pos;
    assert(btree::all_cells(m2, root) =~= all.remove(at));
    assert(all[at] == items[pos]);
    tree::all_sorted(t, root);
    tree::all_sorted(t2, root);
    tree::items_remove(all, None, None, at);
    assert forall|k2: u64| #[trigger] btree::cell_at(m2, root, k2) == if k2 == k {
        None
    } else {
        btree::cell_at(m, root, k2)
    } by {
        assert(tree::get(t2, root, k2) == tree::item_find(all.remove(at), k2));
        assert(tree::get(t, root, k2) == tree::item_find(all, k2));
    }
    assert forall|q: u32| #[trigger] tree::has(t2, root, q) implies tree::has(t, root, q)
        || !m.contains_key(q) by {
        assert(tree::has(t2, root, q) == tree::has(t, root, q));
    }
    assert forall|q: u32| #[trigger]
        m.contains_key(q) && !tree::has(t, root, q) implies m2.contains_key(q) && m2[q] == m[q] by {
        assert(q != p);
    }
}

/// The outcome of [`BTreeWriter::delete`].
pub open spec fn delete_outcome(
    m: Map<u32, Seq<u8>>,
    m2: Map<u32, Seq<u8>>,
    root: u32,
    k: u64,
    r: Result<bool>,
) -> bool {
    match r {
        Ok(true) => {
            &&& btree::walkable(m, root)
            &&& btree::cell_at(m, root, k) is Some
            &&& tree_put(m, m2, root, root, k, None)
            &&& tree::height(btree::view_of(m2), root) == tree::height(btree::view_of(m), root)
            &&& leaf_items(m2, root, k) == without_key(leaf_items(m, root, k), k)
        },
        Ok(false) => {
            &&& btree::walkable(m, root)
            &&& btree::cell_at(m, root, k) is None
            &&& m2 == m
        },
        Err(_) => !btree::walkable(m, root) && m2 == m,
    }
}

impl BTreeWriter {
    /// Deletes a row. Returns whether it was there.
    pub fn delete(&self, guard: &mut WriteGuard, rowid: u64) -> (r: Result<bool>)
        requires
            old(guard).wf(),
        ensures
            r is Ok && file::tidy(old(guard).pages()) ==> file::tidy(final(guard).pages()),
            final(guard).wf(),
            final(guard).total() == old(guard).total(),
            final(guard).inner().contents() == old(guard).inner().contents(),
            file::grounded(old(guard).inner(), final(guard).inner()),
            file::trim_kept(*old(guard), *final(guard)),
            final(guard).inner().count() == old(guard).inner().count(),
            fresh(old(guard).pages(), final(guard).pages(), old(guard).total()),
            btree::is_tree(old(guard).pages(), self.root_no()) ==> delete_outcome(
                old(guard).pages(),
                final(guard).pages(),
                self.root_no(),
                rowid,
                r,
            ),
            r matches Err(e) ==> e is Corruption || e is Io,
    {
        let ghost m = guard.pages();
        let ghost root = self.root;
        let (page_no, page): (u32, Page) = find_leaf_for_rowid(guard, self.root, rowid)?;
        let (pos, found): (usize, bool) = find_insertion_point(&page, rowid);
        if !found {
            return Ok(false);
        }
        let next_leaf: u32 = page.next_leaf();
        let prev_leaf: u32 = page.prev_leaf();
        let mut wp: Page = guard.write_page(page_no)?;
        write_leaf_without(&mut wp, &page, pos);
        let ghost w0 = wp.data@;
        wp.set_next_leaf(next_leaf);
        wp.set_prev_leaf(prev_leaf);
        wp.update_checksum();
        proof {
            btree_node::same_body(w0, wp.data@);
            page::trimmed_same(w0, wp.data@);
            guard.pages_bounded();
            file::tidy_page(guard.pages(), page_no);
            file::tidy_put(guard.pages(), page_no, wp.data@);
        }
        guard.put_page(page_no, wp);
        proof {
            if btree::is_tree(m, root) {
                assert(btree_node::cells(page.data@)[pos as int] == btree_node::cell(
                    page.data@,
                    pos as int,
                ));
                cell_removed(m, guard.pages(), root, page_no, pos as int, rowid);
                leaf_without(m, guard.pages(), root, page_no, pos as int, rowid);
            }
        }
        Ok(true)
    }
}

}
