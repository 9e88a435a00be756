//! The pages of an index tree.
//!
//! A cell of a leaf is `[len:2][key]`. A branch holds its first child, and behind
//! it `[len:2][key][child:4]` for each key.

use crate::btree_node;
use crate::btree_node::{check_leaf, leaf_row};
use crate::bytes;
use crate::bytes::{append, bytes_equal, bytes_less, bytes_u16, copy_slice, read_u16, read_u32};
use crate::page;
use crate::page::{CHECKSUM_OFFSET, PAGE_BRANCH, PAGE_HEADER_SIZE, Page, SEALED_END};
use crate::tree;
use crate::tree::{Key, Node};
use vstd::prelude::*;

verus! {

/// Keys sort byte by byte.
#[verifier::opaque]
pub open spec fn key_before(a: Seq<u8>, b: Seq<u8>) -> bool {
    bytes::lex_lt(a, b)
}

impl Key for Seq<u8> {
    open spec fn before(self, other: Seq<u8>) -> bool {
        key_before(self, other)
    }

    proof fn irreflexive(a: Seq<u8>) {
        reveal(key_before);
        bytes::lex_irreflexive(a);
    }

    proof fn transitive(a: Seq<u8>, b: Seq<u8>, c: Seq<u8>) {
        reveal(key_before);
        bytes::lex_transitive(a, b, c);
    }

    proof fn total(a: Seq<u8>, b: Seq<u8>) {
        reveal(key_before);
        bytes::lex_total(a, b);
    }
}

/// Whether one key sorts before another.
pub fn key_less(a: &[u8], b: &[u8]) -> (r: bool)
    ensures
        r == key_before(a@, b@),
{
    proof {
        reveal(key_before);
    }
    bytes_less(a, b)
}

/// Longest key of an index tree. A branch has room for two of them, and two leaves
/// always have room for the keys of one and another key.
pub const MAX_INDEX_KEY: usize = 2018;

/// Where the entries of a branch end at the latest.
pub const IDX_BRANCH_END: usize = 4068;

/// The key in a cell.
pub open spec fn entry_key(c: Seq<u8>) -> Seq<u8> {
    c.subrange(2, 2 + bytes::get_u16(c, 0))
}

/// The key lies within the cell.
pub open spec fn entry_ok(c: Seq<u8>) -> bool {
    c.len() >= 2 && 2 + bytes::get_u16(c, 0) <= c.len()
}

/// The cell of a key.
pub open spec fn entry(key: Seq<u8>) -> Seq<u8> {
    bytes::le16(key.len() as u16) + key
}

/// All cells hold keys.
pub open spec fn entries_ok(rows: Seq<Seq<u8>>) -> bool {
    forall|i: int| 0 <= i < rows.len() ==> entry_ok(#[trigger] rows[i])
}

/// A leaf whose cells hold keys.
pub open spec fn idx_leaf(s: Seq<u8>) -> bool {
    btree_node::leaf_ok(s) && entries_ok(btree_node::cells(s))
}

/// All cells end with their keys, and no key is too long.
pub open spec fn snug(rows: Seq<Seq<u8>>) -> bool {
    forall|i: int|
        0 <= i < rows.len() ==> (#[trigger] rows[i]).len() == 2 + bytes::get_u16(rows[i], 0)
            && rows[i].len() <= 2 + MAX_INDEX_KEY
}

/// The items of a leaf: its keys, with nothing under them.
pub open spec fn key_items(rows: Seq<Seq<u8>>) -> Seq<(Seq<u8>, ())> {
    rows.map_values(|c: Seq<u8>| (entry_key(c), ()))
}

/// Where key `i` of a branch lies; behind the last one, where a further one would.
pub open spec fn key_off(s: Seq<u8>, i: int) -> int
    decreases i,
{
    if i <= 0 {
        20
    } else {
        key_off(s, i - 1) + 6 + bytes::get_u16(s, key_off(s, i - 1))
    }
}

/// Key `i` of a branch is not too long, and ends in time.
pub open spec fn key_fits(s: Seq<u8>, i: int) -> bool {
    bytes::get_u16(s, key_off(s, i)) <= MAX_INDEX_KEY && key_off(s, i + 1) <= IDX_BRANCH_END
}

/// A branch whose entries lie within the page.
pub open spec fn idx_branch_ok(s: Seq<u8>) -> bool {
    &&& s.len() == 4096
    &&& !page::has_flag(s, page::PAGE_LEAF)
    &&& page::has_flag(s, PAGE_BRANCH)
    &&& page::tail_clear(s)
    &&& forall|i: int| 0 <= i < page::count_of(s) ==> #[trigger] key_fits(s, i)
}

pub open spec fn idx_children(s: Seq<u8>) -> Seq<u32> {
    Seq::new((page::count_of(s) + 1) as nat, |i: int| bytes::get_u32(s, key_off(s, i) - 4))
}

/// Key `i` of a branch.
pub open spec fn idx_key_at(s: Seq<u8>, i: int) -> Seq<u8> {
    let o = key_off(s, i);
    s.subrange(o + 2, o + 2 + bytes::get_u16(s, o))
}

pub open spec fn idx_keys(s: Seq<u8>) -> Seq<Seq<u8>> {
    Seq::new(page::count_of(s) as nat, |i: int| idx_key_at(s, i))
}

/// The node that a page of an index tree holds.
pub open spec fn idx_node_of(s: Seq<u8>) -> Node<Seq<u8>, ()> {
    if idx_leaf(s) && snug(btree_node::cells(s)) {
        Node::Leaf { items: key_items(btree_node::cells(s)), next: page::next_of(s) }
    } else if idx_branch_ok(s) {
        Node::Branch { children: idx_children(s), keys: idx_keys(s) }
    } else {
        Node::Other
    }
}

/// The index tree that pages hold.
pub open spec fn idx_view(m: Map<u32, Seq<u8>>) -> Map<u32, Node<Seq<u8>, ()>> {
    m.map_values(|s: Seq<u8>| idx_node_of(s))
}

/// The keys of a leaf.
pub open spec fn idx_items(s: Seq<u8>) -> Seq<(Seq<u8>, ())> {
    key_items(btree_node::cells(s))
}

// ---------------------------------------------------------------------------
// Leaves
// ---------------------------------------------------------------------------

/// A cell made of a key holds it.
pub proof fn entry_holds(key: Seq<u8>)
    requires
        key.len() <= 65535,
    ensures
        entry_ok(entry(key)),
        entry_key(entry(key)) == key,
        entry(key).len() == key.len() + 2,
{
    let c = entry(key);
    bytes::le16_round_trip(key.len() as u16);
    assert(c.subrange(0, 2) =~= bytes::le16(key.len() as u16));
    bytes::get_u16_of(c, 0, key.len() as u16);
    assert(entry_key(c) =~= key);
}

/// The cell of a key.
pub fn encode_entry(key: &[u8]) -> (c: Vec<u8>)
    requires
        key@.len() <= 65535,
    ensures
        c@ == entry(key@),
{
    let n: usize = key.len();
    let l: [u8; 2] = bytes_u16(n as u16);
    let mut c: Vec<u8> = copy_slice(l.as_slice());
    append(&mut c, key);
    c
}

/// Whether a page is a well-formed leaf of an index.
pub fn check_idx_leaf(page: &Page) -> (r: bool)
    ensures
        r == idx_leaf(page.data@),
{
    if !check_leaf(page) {
        return false;
    }
    let n: usize = page.num_rows() as usize;
    let mut i: usize = 0;
    while i < n
        invariant
            i <= n == page::count_of(page.data@),
            btree_node::leaf_ok(page.data@),
            forall|j: int| 0 <= j < i ==> entry_ok(#[trigger] btree_node::cells(page.data@)[j]),
        decreases n - i,
    {
        let c: &[u8] = leaf_row(page, i);
        assert(btree_node::cells(page.data@)[i as int] == c@);
        let len: usize = read_u16(c, 0) as usize;
        if 2 + len > c.len() {
            return false;
        }
        i += 1;
    }
    true
}

/// Key `i` of a leaf.
pub fn decode_leaf_entry(page: &Page, i: usize) -> (k: &[u8])
    requires
        idx_leaf(page.data@),
        i < page::count_of(page.data@),
    ensures
        k@ == idx_items(page.data@)[i as int].0,
{
    let c: &[u8] = leaf_row(page, i);
    assert(btree_node::cells(page.data@)[i as int] == c@);
    let len: usize = read_u16(c, 0) as usize;
    &c[2..2 + len]
}

/// Binary search for a key: its index and `true`, or the index where it would be
/// inserted and `false`.
pub fn find_idx_insertion_point(page: &Page, key: &[u8]) -> (r: (usize, bool))
    requires
        idx_leaf(page.data@),
    ensures
        r.0 <= page::count_of(page.data@),
        r.1 ==> r.0 < page::count_of(page.data@) && idx_items(page.data@)[r.0 as int].0 == key@,
        tree::items_ok(idx_items(page.data@), None, None) ==> {
            &&& r.1 <==> tree::item_find(idx_items(page.data@), key@) is Some
            &&& forall|i: int|
                0 <= i < r.0 ==> (#[trigger] idx_items(page.data@)[i]).0.before(key@)
            &&& !r.1 ==> forall|i: int|
                r.0 <= i < idx_items(page.data@).len() ==> key@.before(
                    (#[trigger] idx_items(page.data@)[i]).0,
                )
        },
{
    let ghost items = idx_items(page.data@);
    let ghost sorted = tree::items_ok(items, None, None);
    let n: usize = page.num_rows() as usize;
    let mut lo: usize = 0;
    let mut hi: usize = n;
    while lo < hi
        invariant
            lo <= hi <= n == page::count_of(page.data@),
            idx_leaf(page.data@),
            items == idx_items(page.data@),
            sorted == tree::items_ok(items, None, None),
            sorted ==> forall|i: int| 0 <= i < lo ==> (#[trigger] items[i]).0.before(key@),
            sorted ==> forall|i: int| hi <= i < n ==> key@.before((#[trigger] items[i]).0),
        decreases hi - lo,
    {
        let mid: usize = lo + (hi - lo) / 2;
        let k: &[u8] = decode_leaf_entry(page, mid);
        if key_less(k, key) {
            proof {
                if sorted {
                    assert forall|i: int| 0 <= i < mid + 1 implies (#[trigger] items[i]).0.before(
                        key@,
                    ) by {
                        if i < mid {
                            assert(items[i].0.before(items[mid as int].0));
                            Seq::<u8>::transitive(items[i].0, items[mid as int].0, key@);
                        }
                    }
                }
            }
            lo = mid + 1;
        } else if bytes_equal(k, key) {
            proof {
                if sorted {
                    tree::item_find_at(items, None, None, mid as int);
                    assert forall|i: int| 0 <= i < mid implies (#[trigger] items[i]).0.before(
                        key@,
                    ) by {
                        assert(items[i].0.before(items[mid as int].0));
                    }
                }
            }
            return (mid, true);
        } else {
            proof {
                Seq::<u8>::total(k@, key@);
                if sorted {
                    assert forall|i: int| mid <= i < n implies key@.before(
                        (#[trigger] items[i]).0,
                    ) by {
                        if mid < i {
                            assert(items[mid as int].0.before(items[i].0));
                            Seq::<u8>::transitive(key@, items[mid as int].0, items[i].0);
                        }
                    }
                }
            }
            hi = mid;
        }
    }
    proof {
        if sorted {
            Seq::<u8>::irreflexive(key@);
            assert forall|i: int| 0 <= i < items.len() implies (#[trigger] items[i]).0 != key@ by {}
            tree::item_find_none(items, key@);
        }
    }
    (lo, false)
}

// ---------------------------------------------------------------------------
// Branches
// ---------------------------------------------------------------------------

/// The keys of a branch lie one behind the other.
proof fn key_off_bounds(s: Seq<u8>, i: int)
    requires
        0 <= i <= page::count_of(s),
        forall|j: int| 0 <= j < i ==> #[trigger] key_fits(s, j),
    ensures
        20 + 6 * i <= key_off(s, i) <= 4068,
        0 < i ==> key_off(s, i - 1) + 6 <= key_off(s, i),
    decreases i,
{
    if i > 0 {
        assert(key_fits(s, i - 1));
        key_off_bounds(s, i - 1);
    }
}

/// No key is longer than a branch allows.
pub proof fn idx_keys_short(s: Seq<u8>)
    requires
        idx_branch_ok(s),
    ensures
        forall|i: int|
            0 <= i < idx_keys(s).len() ==> (#[trigger] idx_keys(s)[i]).len() <= MAX_INDEX_KEY,
        20 + keys_size(idx_keys(s)) == key_off(s, page::count_of(s) as int),
        20 + keys_size(idx_keys(s)) <= IDX_BRANCH_END,
{
    assert forall|i: int| 0 <= i < idx_keys(s).len() implies (#[trigger] idx_keys(s)[i]).len()
        <= MAX_INDEX_KEY by {
        assert(key_fits(s, i));
        key_off_bounds(s, i);
        key_off_bounds(s, i + 1);
    }
    keys_size_off(s, page::count_of(s) as int);
    key_off_bounds(s, page::count_of(s) as int);
    assert(idx_keys(s).take(page::count_of(s) as int) =~= idx_keys(s));
}

/// The bytes that keys and the children behind them take in a branch.
pub open spec fn keys_size(keys: Seq<Seq<u8>>) -> int
    decreases keys.len(),
{
    if keys.len() == 0 {
        0
    } else {
        keys_size(keys.drop_last()) + keys.last().len() + 6
    }
}

proof fn keys_size_off(s: Seq<u8>, i: int)
    requires
        idx_branch_ok(s),
        0 <= i <= page::count_of(s),
    ensures
        20 + keys_size(idx_keys(s).take(i)) == key_off(s, i),
    decreases i,
{
    if i > 0 {
        keys_size_off(s, i - 1);
        assert(key_fits(s, i - 1));
        key_off_bounds(s, i - 1);
        key_off_bounds(s, i);
        assert(idx_keys(s).take(i).drop_last() =~= idx_keys(s).take(i - 1));
        assert(idx_keys(s).take(i).last() == idx_key_at(s, i - 1));
    }
}

/// One key more or less.
pub proof fn keys_size_step(keys: Seq<Seq<u8>>, i: int)
    requires
        0 <= i < keys.len(),
    ensures
        keys_size(keys.take(i + 1)) == keys_size(keys.take(i)) + keys[i].len() + 6,
        keys_size(keys.take(0)) == 0,
        keys_size(keys.take(keys.len() as int)) == keys_size(keys),
{
    assert(keys.take(i + 1).drop_last() =~= keys.take(i));
    assert(keys.take(i + 1).last() == keys[i]);
    assert(keys.take(keys.len() as int) =~= keys);
    assert(keys.take(0).len() == 0);
}

/// Keys take the room of those in front and of those behind.
pub proof fn keys_size_parted(keys: Seq<Seq<u8>>, i: int)
    requires
        0 <= i <= keys.len(),
    ensures
        keys_size(keys) == keys_size(keys.take(i)) + keys_size(keys.skip(i)),
        keys_size(keys) >= 0,
        keys_size(keys.take(i)) >= 0,
        keys_size(keys.skip(i)) >= 6 * (keys.len() - i),
    decreases keys.len() - i,
{
    if i == keys.len() {
        assert(keys.take(i) =~= keys);
        assert(keys.skip(i) =~= Seq::empty());
        keys_size_nonneg(keys);
    } else {
        keys_size_parted(keys, i + 1);
        keys_size_step(keys, i);
        keys_size_nonneg(keys.take(i));
        keys_size_front(keys.skip(i));
        assert(keys.skip(i).skip(1) =~= keys.skip(i + 1));
        assert(keys.skip(i)[0] == keys[i]);
    }
}

proof fn keys_size_nonneg(keys: Seq<Seq<u8>>)
    ensures
        keys_size(keys) >= 0,
    decreases keys.len(),
{
    if keys.len() > 0 {
        keys_size_nonneg(keys.drop_last());
    }
}

proof fn keys_size_front(keys: Seq<Seq<u8>>)
    requires
        keys.len() > 0,
    ensures
        keys_size(keys) == keys[0].len() + 6 + keys_size(keys.skip(1)),
    decreases keys.len(),
{
    if keys.len() == 1 {
        assert(keys.drop_last() =~= Seq::empty());
        assert(keys.skip(1) =~= Seq::empty());
    } else {
        keys_size_front(keys.drop_last());
        assert(keys.drop_last().skip(1) =~= keys.skip(1).drop_last());
        assert(keys.skip(1).last() == keys.last());
    }
}

/// A key more among others.
pub proof fn keys_size_insert(keys: Seq<Seq<u8>>, pos: int, key: Seq<u8>)
    requires
        0 <= pos <= keys.len(),
    ensures
        keys_size(keys.insert(pos, key)) == keys_size(keys) + key.len() + 6,
{
    let new = keys.insert(pos, key);
    keys_size_parted(keys, pos);
    keys_size_parted(new, pos);
    keys_size_front(new.skip(pos));
    assert(new.take(pos) =~= keys.take(pos));
    assert(new.skip(pos).skip(1) =~= keys.skip(pos));
    assert(new.skip(pos)[0] == key);
}

/// Whether the bytes that an encrypted page has no room for are zero.
fn has_clear_tail(page: &Page) -> (r: bool)
    ensures
        r == page::tail_clear(page.data@),
{
    let mut i: usize = SEALED_END;
    while i < CHECKSUM_OFFSET
        invariant
            4068 <= i <= 4092,
            forall|j: int| 4068 <= j < i ==> #[trigger] page.data@[j] == 0,
        decreases 4092 - i,
    {
        if page.data[i] != 0 {
            return false;
        }
        i += 1;
    }
    true
}

/// The branches of an index can be encrypted without a loss.
pub proof fn idx_trimmed(s: Seq<u8>)
    requires
        idx_branch_ok(s),
    ensures
        page::trimmed(s),
{
    page::trimmed_means(s);
}

/// Whether a page is a well-formed branch of an index.
pub fn check_idx_branch(page: &Page) -> (r: bool)
    ensures
        r == idx_branch_ok(page.data@),
{
    if page.is_leaf() || !page.is_branch() || !has_clear_tail(page) {
        return false;
    }
    let n: usize = page.num_rows() as usize;
    let mut off: usize = 20;
    let mut i: usize = 0;
    while i < n
        invariant
            i <= n == page::count_of(page.data@),
            off == key_off(page.data@, i as int),
            20 <= off <= 4068,
            page::tail_clear(page.data@),
            forall|j: int| 0 <= j < i ==> #[trigger] key_fits(page.data@, j),
        decreases n - i,
    {
        let len: usize = read_u16(page.data.as_slice(), off) as usize;
        if len > MAX_INDEX_KEY || off + 6 + len > IDX_BRANCH_END {
            assert(!key_fits(page.data@, i as int));
            return false;
        }
        assert(key_fits(page.data@, i as int));
        off = off + 6 + len;
        i += 1;
    }
    true
}

/// The child of a branch that holds a key, with its index.
pub fn find_idx_child(page: &Page, key: &[u8]) -> (r: (usize, u32))
    requires
        idx_branch_ok(page.data@),
    ensures
        r.0 == tree::route(idx_keys(page.data@), key@),
        r.0 <= page::count_of(page.data@),
        r.1 == idx_children(page.data@)[r.0 as int],
{
    let n: usize = page.num_rows() as usize;
    let mut off: usize = 20;
    let mut i: usize = 0;
    while i < n
        invariant
            i <= n == page::count_of(page.data@),
            idx_branch_ok(page.data@),
            off == key_off(page.data@, i as int),
            20 <= off <= 4068,
            forall|j: int| 0 <= j < i ==> !key@.before(#[trigger] idx_keys(page.data@)[j]),
        decreases n - i,
    {
        assert(key_fits(page.data@, i as int));
        let len: usize = read_u16(page.data.as_slice(), off) as usize;
        let k: &[u8] = &page.data[off + 2..off + 2 + len];
        assert(k@ == idx_keys(page.data@)[i as int]);
        if key_less(key, k) {
            proof {
                tree::route_unique(idx_keys(page.data@), key@, i as int);
            }
            return (i, read_u32(page.data.as_slice(), off - 4));
        }
        off = off + 6 + len;
        i += 1;
    }
    proof {
        tree::route_unique(idx_keys(page.data@), key@, n as int);
    }
    (n, read_u32(page.data.as_slice(), off - 4))
}

/// The bytes behind vectors.
pub open spec fn key_views(keys: Seq<Vec<u8>>) -> Seq<Seq<u8>> {
    keys.map_values(|k: Vec<u8>| k@)
}

/// The children and keys of a branch.
pub fn collect_idx_branch_flat(page: &Page) -> (r: (Vec<u32>, Vec<Vec<u8>>))
    requires
        idx_branch_ok(page.data@),
    ensures
        r.0@ == idx_children(page.data@),
        key_views(r.1@) == idx_keys(page.data@),
        r.1@.len() == page::count_of(page.data@),
{
    let n: usize = page.num_rows() as usize;
    let mut children: Vec<u32> = Vec::new();
    let mut keys: Vec<Vec<u8>> = Vec::new();
    children.push(read_u32(page.data.as_slice(), PAGE_HEADER_SIZE));
    let mut off: usize = 20;
    let mut i: usize = 0;
    while i < n
        invariant
            i <= n == page::count_of(page.data@),
            idx_branch_ok(page.data@),
            off == key_off(page.data@, i as int),
            20 <= off <= 4068,
            children@.len() == i + 1,
            keys@.len() == i,
            forall|j: int| 0 <= j <= i ==> #[trigger] children@[j] == idx_children(page.data@)[j],
            forall|j: int| 0 <= j < i ==> (#[trigger] keys@[j])@ == idx_keys(page.data@)[j],
        decreases n - i,
    {
        assert(key_fits(page.data@, i as int));
        let len: usize = read_u16(page.data.as_slice(), off) as usize;
        keys.push(copy_slice(&page.data[off + 2..off + 2 + len]));
        off = off + 6 + len;
        children.push(read_u32(page.data.as_slice(), off - 4));
        i += 1;
    }
    assert(children@ =~= idx_children(page.data@));
    assert(key_views(keys@) =~= idx_keys(page.data@));
    (children, keys)
}

/// The first `n` keys, and the children around them, lie in a page.
spec fn laid(s: Seq<u8>, children: Seq<u32>, keys: Seq<Seq<u8>>, n: int) -> bool {
    &&& forall|j: int| 0 <= j <= n ==> #[trigger] key_off(s, j) == 20 + keys_size(keys.take(j))
    &&& forall|j: int| 0 <= j < n ==> #[trigger] idx_key_at(s, j) == keys[j]
    &&& forall|j: int|
        0 <= j < n ==> bytes::get_u16(s, #[trigger] key_off(s, j)) == keys[j].len()
    &&& forall|j: int|
        0 <= j <= n ==> bytes::get_u32(s, #[trigger] key_off(s, j) - 4) == children[j]
}

/// What lies in a page stays while bytes behind it are written.
proof fn laid_kept(a: Seq<u8>, b: Seq<u8>, children: Seq<u32>, keys: Seq<Seq<u8>>, n: int, end: int)
    requires
        a.len() == 4096,
        b.len() == 4096,
        0 <= n <= keys.len(),
        n < children.len(),
        laid(a, children, keys, n),
        20 + keys_size(keys.take(n)) == end <= 4096,
        forall|i: int| 16 <= i < end ==> a[i] == b[i],
    ensures
        laid(b, children, keys, n),
    decreases n,
{
    assert(key_off(a, n) == end);
    if n == 0 {
        page::agree_at(a, b, 16);
        assert forall|j: int| 0 <= j <= n implies #[trigger] key_off(b, j) == 20 + keys_size(
            keys.take(j),
        ) by {
            assert(key_off(a, j) == 20 + keys_size(keys.take(j)));
        }
        assert(key_off(a, 0) == 20 && key_off(b, 0) == 20);
    } else {
        keys_size_step(keys, n - 1);
        keys_size_nonneg(keys.take(n - 1));
        let e = 20 + keys_size(keys.take(n - 1));
        assert(key_off(a, n - 1) == e);
        laid_kept(a, b, children, keys, n - 1, e);
        assert(key_off(b, n - 1) == e);
        page::agree_at(a, b, e);
        page::agree_at(a, b, end - 4);
        assert(bytes::get_u16(a, key_off(a, n - 1)) == keys[n - 1].len());
        assert(key_off(b, n) == end);
        assert(idx_key_at(a, n - 1) == keys[n - 1]);
        assert(idx_key_at(b, n - 1) =~= idx_key_at(a, n - 1));
        assert(bytes::get_u32(a, key_off(a, n) - 4) == children[n]);
    }
}

/// Makes `page` a branch with the given children and keys.
pub fn rebuild_idx_branch_flat(page: &mut Page, children: &[u32], keys: &[Vec<u8>])
    requires
        children@.len() == keys@.len() + 1,
        20 + keys_size(key_views(keys@)) <= IDX_BRANCH_END,
        forall|i: int| 0 <= i < keys@.len() ==> (#[trigger] keys@[i])@.len() <= MAX_INDEX_KEY,
    ensures
        idx_branch_ok(final(page).data@),
        idx_children(final(page).data@) == children@,
        idx_keys(final(page).data@) == key_views(keys@),
        page::magic_of(final(page).data@) == page::magic_of(old(page).data@),
{
    let n: usize = keys.len();
    let ghost ks = key_views(keys@);
    proof {
        keys_size_parted(ks, 0);
        assert(ks.skip(0) =~= ks);
        assert(6 * n <= 4048);
    }
    page.set_flags(PAGE_BRANCH);
    page.set_num_rows(n as u16);
    let ghost head = page.data@;
    page.clear_body();
    page.put_u32(PAGE_HEADER_SIZE, children[0]);
    let mut off: usize = 20;
    let mut i: usize = 0;
    proof {
        assert(ks.take(0).len() == 0);
        assert(key_off(page.data@, 0) == 20);
        assert forall|j: int| 0 <= j <= 0 implies bytes::get_u32(
            page.data@,
            #[trigger] key_off(page.data@, j) - 4,
        ) == children@[j] by {}
        assert forall|j: int| 0 <= j <= 0 implies #[trigger] key_off(page.data@, j) == 20
            + keys_size(ks.take(j)) by {
            assert(j == 0);
        }
    }
    while i < n
        invariant
            i <= n == keys@.len() == ks.len(),
            ks == key_views(keys@),
            children@.len() == n + 1,
            off == 20 + keys_size(ks.take(i as int)),
            20 + keys_size(ks) <= 4068,
            20 <= off <= 4068,
            forall|j: int| 0 <= j < n ==> (#[trigger] keys@[j])@.len() <= MAX_INDEX_KEY,
            page::same_but(head, page.data@, 16, 4076),
            head.len() == 4096,
            page::tail_clear(page.data@),
            laid(page.data@, children@, ks, i as int),
        decreases n - i,
    {
        let len: usize = keys[i].len();
        proof {
            assert(ks[i as int] == keys@[i as int]@);
            keys_size_step(ks, i as int);
            keys_size_parted(ks, i + 1);
        }
        let ghost p0 = page.data@;
        let l: [u8; 2] = bytes_u16(len as u16);
        page.put(off, l.as_slice());
        let ghost p1 = page.data@;
        page.put(off + 2, keys[i].as_slice());
        let ghost p2 = page.data@;
        page.put_u32(off + 2 + len, children[i + 1]);
        proof {
            let s = page.data@;
            laid_kept(p0, s, children@, ks, i as int, off as int);
            assert(key_off(s, i as int) == off);
            bytes::le16_round_trip(len as u16);
            bytes::get_u16_of(p1, off as int, len as u16);
            page::agree_at(p1, s, off as int);
            assert(key_off(s, i + 1) == off + 6 + len);
            assert(idx_key_at(s, i as int) =~= keys@[i as int]@) by {
                assert forall|j: int| 0 <= j < len implies s[off + 2 + j] == keys@[i as int]@[j] by {
                    assert(p2.subrange(off + 2, off + 2 + len)[j] == keys@[i as int]@[j]);
                }
            }
            assert forall|j: int| 0 <= j <= i + 1 implies #[trigger] key_off(s, j) == 20
                + keys_size(ks.take(j)) by {}
            assert forall|j: int| 0 <= j < i + 1 implies #[trigger] idx_key_at(s, j) == ks[j] by {}
            assert forall|j: int| 0 <= j < i + 1 implies bytes::get_u16(
                s,
                #[trigger] key_off(s, j),
            ) == ks[j].len() by {}
            assert forall|j: int| 0 <= j <= i + 1 implies bytes::get_u32(
                s,
                #[trigger] key_off(s, j) - 4,
            ) == children@[j] by {}
        }
        off = off + 6 + len;
        i += 1;
    }
    proof {
        let s = page.data@;
        page::same_but_fields(head, s, 16, 4076);
        assert(2u16 & 1u16 == 0) by (bit_vector);
        assert(2u16 & 2u16 != 0) by (bit_vector);
        assert forall|j: int| 0 <= j < n implies #[trigger] key_fits(s, j) by {
            assert(key_off(s, j) == 20 + keys_size(ks.take(j)));
            assert(bytes::get_u16(s, key_off(s, j)) == ks[j].len());
            assert(ks[j] == keys@[j]@);
            keys_size_step(ks, j);
            keys_size_parted(ks, j + 1);
        }
        assert forall|j: int| 0 <= j <= n implies #[trigger] idx_children(s)[j] == children@[j] by {
            assert(key_off(s, j) == 20 + keys_size(ks.take(j)));
        }
        assert forall|j: int| 0 <= j < n implies #[trigger] idx_keys(s)[j] == ks[j] by {
            assert(idx_key_at(s, j) == ks[j]);
        }
        assert(idx_children(s) =~= children@);
        assert(idx_keys(s) =~= ks);
    }
}

/// Where to part the keys of a branch that has too many: the keys in front of that
/// one and those behind it each have room in a branch.
pub fn branch_split_point(keys: &Vec<Vec<u8>>) -> (mid: usize)
    requires
        4048 < keys_size(key_views(keys@)) <= 6072,
        forall|i: int| 0 <= i < keys@.len() ==> (#[trigger] keys@[i])@.len() <= MAX_INDEX_KEY,
    ensures
        0 < mid < keys@.len() - 1,
        20 + keys_size(key_views(keys@).take(mid as int)) <= IDX_BRANCH_END,
        20 + keys_size(key_views(keys@).skip(mid + 1)) <= IDX_BRANCH_END,
{
    let ghost ks = key_views(keys@);
    let n: usize = keys.len();
    proof {
        assert(ks.take(ks.len() as int) =~= ks);
        assert(ks.take(0).len() == 0);
        if n == 1 {
            keys_size_step(ks, 0);
            assert(ks[0] == keys@[0]@);
        }
        if n == 0 {
            assert(ks =~= Seq::empty());
        }
        keys_size_step(ks, 0);
        assert(ks[0] == keys@[0]@);
    }
    let mut left: usize = keys[0].len() + 6;
    let mut mid: usize = 1;
    while mid < n && left + keys[mid].len() + 6 <= 2024
        invariant
            1 <= mid <= n == keys@.len() == ks.len(),
            ks == key_views(keys@),
            left == keys_size(ks.take(mid as int)),
            left <= 2024,
            4048 < keys_size(ks) <= 6072,
            forall|i: int| 0 <= i < keys@.len() ==> (#[trigger] keys@[i])@.len() <= MAX_INDEX_KEY,
        decreases n - mid,
    {
        proof {
            keys_size_step(ks, mid as int);
            assert(ks[mid as int] == keys@[mid as int]@);
        }
        left = left + keys[mid].len() + 6;
        mid += 1;
    }
    proof {
        if mid == n {
            assert(ks.take(mid as int) =~= ks);
        }
        keys_size_step(ks, mid as int);
        assert(ks[mid as int] == keys@[mid as int]@);
        keys_size_parted(ks, mid + 1);
        if mid == n - 1 {
            assert(ks.take(mid + 1) =~= ks);
        }
    }
    mid
}

/// New chain pointers and a new checksum leave what a page holds as it is.
pub proof fn idx_same_body(a: Seq<u8>, b: Seq<u8>)
    requires
        a.len() == 4096,
        b.len() == 4096,
        forall|i: int| 0 <= i < 4092 && !(8 <= i < 16) ==> a[i] == b[i],
    ensures
        idx_leaf(a) == idx_leaf(b),
        idx_branch_ok(a) == idx_branch_ok(b),
        idx_leaf(a) ==> btree_node::cells(a) == btree_node::cells(b),
        idx_branch_ok(a) ==> idx_children(a) == idx_children(b) && idx_keys(a) == idx_keys(b),
        page::next_of(a) == page::next_of(b) ==> idx_node_of(a) == idx_node_of(b),
{
    btree_node::same_body(a, b);
    page::agree_at(a, b, 2);
    page::agree_at(a, b, 4);
    if btree_node::leaf_ok(a) {
        assert(btree_node::cells(a) == btree_node::cells(b));
    }
    assert(idx_branch_ok(a) ==> idx_branch_same(a, b)) by {
        if idx_branch_ok(a) {
            branch_body(a, b);
        }
    }
    if idx_branch_ok(b) {
        branch_body(b, a);
    }
}

spec fn idx_branch_same(a: Seq<u8>, b: Seq<u8>) -> bool {
    idx_branch_ok(b) && idx_children(a) == idx_children(b) && idx_keys(a) == idx_keys(b)
}

proof fn branch_body(a: Seq<u8>, b: Seq<u8>)
    requires
        idx_branch_ok(a),
        b.len() == 4096,
        page::flags_of(a) == page::flags_of(b),
        page::count_of(a) == page::count_of(b),
        forall|i: int| 16 <= i < 4092 ==> a[i] == b[i],
    ensures
        idx_branch_same(a, b),
{
    let n = page::count_of(a) as int;
    assert forall|i: int| 0 <= i <= n implies #[trigger] key_off(b, i) == key_off(a, i) by {
        offs_agree(a, b, i);
    }
    assert forall|i: int| 0 <= i < n implies #[trigger] key_fits(b, i) && idx_key_at(a, i)
        == idx_key_at(b, i) by {
        assert(key_fits(a, i));
        key_off_bounds(a, i);
        key_off_bounds(a, i + 1);
        assert(key_off(b, i) == key_off(a, i));
        assert(key_off(b, i + 1) == key_off(a, i + 1));
        page::agree_at(a, b, key_off(a, i));
        assert(idx_key_at(a, i) =~= idx_key_at(b, i));
    }
    assert forall|i: int| 0 <= i <= n implies #[trigger] idx_children(b)[i] == idx_children(a)[i] by {
        key_off_bounds(a, i);
        assert(key_off(b, i) == key_off(a, i));
        page::agree_at(a, b, key_off(a, i) - 4);
    }
    assert forall|i: int| 0 <= i < n implies #[trigger] idx_keys(b)[i] == idx_keys(a)[i] by {
        assert(key_fits(b, i));
    }
    assert(idx_children(a) =~= idx_children(b));
    assert(idx_keys(a) =~= idx_keys(b));
}

proof fn offs_agree(a: Seq<u8>, b: Seq<u8>, i: int)
    requires
        idx_branch_ok(a),
        0 <= i <= page::count_of(a),
        forall|j: int| 16 <= j < 4092 ==> a[j] == b[j],
    ensures
        key_off(b, i) == key_off(a, i),
    decreases i,
{
    if i > 0 {
        offs_agree(a, b, i - 1);
        key_off_bounds(a, i - 1);
        key_off_bounds(a, i);
        page::agree_at(a, b, key_off(a, i - 1));
    }
}

/// A leaf is no branch.
pub proof fn idx_kinds(s: Seq<u8>)
    ensures
        idx_leaf(s) ==> page::has_flag(s, page::PAGE_LEAF) && page::count_of(s) <= 2038
            && !idx_branch_ok(s),
{
    btree_node::leaf_basics(s);
}

/// A new leaf holds no keys.
pub proof fn empty_idx_leaf(s: Seq<u8>)
    requires
        s.len() == 4096,
        page::flags_of(s) == page::PAGE_LEAF,
        page::count_of(s) == 0,
        page::free_of(s) == 16,
        page::tail_clear(s),
    ensures
        page::trimmed(s),
        idx_leaf(s),
        idx_node_of(s) == (Node::<Seq<u8>, ()>::Leaf {
            items: Seq::empty(),
            next: page::next_of(s),
        }),
{
    btree_node::empty_leaf(s);
    assert(idx_items(s) =~= Seq::empty());
}

}
