//! B+ trees of rows, keyed by row id.
//!
//! A tree maps row ids to the bytes that its leaves hold. A row that is too
//! long for a leaf is cut: the leaf holds its start and a trailer, a chain of
//! overflow pages holds the rest.

use crate::btree_node;
use crate::btree_node::{
    check_branch, check_row_leaf, find_child, find_insertion_point, get_branch_child, leaf_row,
};
use crate::bytes;
use crate::bytes::{append, copy_slice};
use crate::error::{corruption, Result};
use crate::file::{PageFile, WriteGuard};
use crate::filter;
use crate::filter::{eval_filter_op, FilterOp};
use crate::overflow;
use crate::overflow::{decode_overflow_trailer, has_overflow, read_overflow_payload};
use crate::page;
use crate::page::{Page, PAGE_HEADER_SIZE, PAGE_SIZE};
use crate::row;
use crate::row::{extract_column, extract_id};
use crate::tree;
use crate::tree::{Key, Node};
use crate::value::{Value, ValueView};
use vstd::prelude::*;

verus! {

/// The deepest tree that is walked.
pub const MAX_TREE_DEPTH: usize = 64;

/// The longest row that is put together from overflow pages.
pub const MAX_REASSEMBLE_SIZE: u64 = 67_108_864;

/// Where pages are read from.
pub trait PageSource {
    /// The pages that can be read.
    spec fn visible(&self) -> Map<u32, Seq<u8>>;

    /// The number of pages, counting those that cannot be read.
    spec fn limit(&self) -> int;

    /// The counts are consistent.
    spec fn sound(&self) -> bool;

    /// Reads a page.
    fn fetch(&self, page_no: u32) -> (r: Result<Page>)
        ensures
            r is Ok <==> self.visible().contains_key(page_no),
            r matches Ok(p) ==> p.data@ == self.visible()[page_no],
            r matches Err(e) ==> e is Corruption || e is Io,
    ;

    /// The number of pages.
    fn page_limit(&self) -> (n: u32)
        requires
            self.sound(),
        ensures
            n == self.limit(),
    ;

    /// Page numbers stay below the limit.
    proof fn below_limit(&self)
        requires
            self.sound(),
        ensures
            forall|p: u32| #[trigger] self.visible().contains_key(p) ==> p < self.limit(),
    ;
}

impl PageSource for PageFile {
    open spec fn visible(&self) -> Map<u32, Seq<u8>> {
        self.contents()
    }

    open spec fn limit(&self) -> int {
        self.count() as int
    }

    open spec fn sound(&self) -> bool {
        true
    }

    fn fetch(&self, page_no: u32) -> (r: Result<Page>) {
        self.read_page(page_no)
    }

    fn page_limit(&self) -> (n: u32) {
        self.page_count()
    }

    proof fn below_limit(&self) {
        self.contents_bounded();
    }
}

impl PageSource for WriteGuard {
    open spec fn visible(&self) -> Map<u32, Seq<u8>> {
        self.pages()
    }

    open spec fn limit(&self) -> int {
        self.total()
    }

    open spec fn sound(&self) -> bool {
        self.wf()
    }

    fn fetch(&self, page_no: u32) -> (r: Result<Page>) {
        self.read_page(page_no)
    }

    fn page_limit(&self) -> (n: u32) {
        self.page_file().page_count() + self.new_page_count()
    }

    proof fn below_limit(&self) {
        self.pages_bounded();
    }
}

// ---------------------------------------------------------------------------
// Rows across pages
// ---------------------------------------------------------------------------

/// The first `left` bytes that the chain of overflow pages from `page` on
/// holds, if at most `fuel` pages are needed.
pub open spec fn chain(m: Map<u32, Seq<u8>>, page: u32, left: nat, fuel: nat) -> Option<Seq<u8>>
    decreases fuel,
{
    if page == 0 || left == 0 {
        Some(Seq::empty())
    } else if fuel == 0 || !m.contains_key(page) || page::count_of(m[page]) > 4080 {
        None
    } else {
        let part = overflow::payload_of(m[page]);
        let n: nat = if part.len() <= left {
            part.len()
        } else {
            left
        };
        match chain(m, page::next_of(m[page]), (left - n) as nat, (fuel - 1) as nat) {
            None => None,
            Some(rest) => Some(part.take(n as int) + rest),
        }
    }
}

/// The chain runs over overflow pages only.
pub open spec fn chain_apart(m: Map<u32, Seq<u8>>, page: u32, left: nat, fuel: nat) -> bool
    decreases fuel,
{
    if page == 0 || left == 0 {
        true
    } else if fuel == 0 || !m.contains_key(page) {
        false
    } else {
        let part = overflow::payload_of(m[page]);
        let n: nat = if part.len() <= left {
            part.len()
        } else {
            left
        };
        &&& page::flags_of(m[page]) == page::PAGE_OVERFLOW
        &&& chain_apart(m, page::next_of(m[page]), (left - n) as nat, (fuel - 1) as nat)
    }
}

/// The pages of the chain are trimmed.
pub open spec fn chain_trim(m: Map<u32, Seq<u8>>, page: u32, left: nat, fuel: nat) -> bool
    decreases fuel,
{
    if page == 0 || left == 0 || fuel == 0 || !m.contains_key(page) {
        true
    } else {
        let part = overflow::payload_of(m[page]);
        let n: nat = if part.len() <= left {
            part.len()
        } else {
            left
        };
        &&& page::trimmed(m[page])
        &&& chain_trim(m, page::next_of(m[page]), (left - n) as nat, (fuel - 1) as nat)
    }
}

/// The overflow pages that a cell leads to are trimmed.
pub open spec fn cell_trim(m: Map<u32, Seq<u8>>, cell: Seq<u8>) -> bool {
    overflow::overflows(cell) ==> {
        let remaining = overflow::trailer_remaining(cell) as nat;
        chain_trim(m, overflow::trailer_page(cell), remaining, chain_fuel(remaining))
    }
}

/// The number of overflow pages that a trailer may announce.
pub open spec fn chain_fuel(remaining: nat) -> nat {
    remaining / 4052 + 2
}

/// The row that a cell of a leaf stands for.
pub open spec fn expand(m: Map<u32, Seq<u8>>, cell: Seq<u8>) -> Option<Seq<u8>> {
    if !overflow::overflows(cell) {
        Some(cell)
    } else {
        let remaining = overflow::trailer_remaining(cell) as nat;
        if cell.len() - 9 + remaining > MAX_REASSEMBLE_SIZE {
            None
        } else {
            match chain(m, overflow::trailer_page(cell), remaining, chain_fuel(remaining)) {
                None => None,
                Some(rest) => Some(cell.take(cell.len() - 9) + rest),
            }
        }
    }
}

/// Puts the row of a cell together.
pub fn reassemble_row<S: PageSource>(row_bytes: &[u8], source: &S) -> (r: Result<Vec<u8>>)
    ensures
        match expand(source.visible(), row_bytes@) {
            Some(full) => r matches Ok(v) && v@ == full,
            None => r matches Err(e) && (e is Corruption || e is Io),
        },
{
    let len: usize = row_bytes.len();
    if !has_overflow(row_bytes) {
        return Ok(copy_slice(row_bytes));
    }
    let (inline_len, first_page, remaining): (usize, u32, u32) = decode_overflow_trailer(row_bytes);
    if inline_len as u64 > MAX_REASSEMBLE_SIZE || inline_len as u64 + remaining as u64
        > MAX_REASSEMBLE_SIZE {
        return Err(corruption("overflow row exceeds the 67108864 byte safety limit"));
    }
    let mut full: Vec<u8> = copy_slice(&row_bytes[0..inline_len]);
    let ghost m = source.visible();
    let max_iterations: u32 = remaining / 4052 + 2;
    let mut iterations: u32 = 0;
    let mut current: u32 = first_page;
    let mut left: usize = remaining as usize;
    assert(row_bytes@.take(inline_len as int) =~= full@);
    assert forall|s: Seq<u8>| #[trigger] (full@ + s) == full@ + s by {}
    while current != 0 && left > 0
        invariant
            m == source.visible(),
            iterations <= max_iterations,
            match chain(m, current, left as nat, (max_iterations - iterations) as nat) {
                Some(rest) => expand(m, row_bytes@) == Some(full@ + rest),
                None => expand(m, row_bytes@) is None,
            },
        decreases max_iterations - iterations,
    {
        if iterations >= max_iterations {
            return Err(corruption("overflow chain cycle detected"));
        }
        iterations += 1;
        let page: Page = source.fetch(current)?;
        if page.overflow_payload_len() as usize > PAGE_SIZE - PAGE_HEADER_SIZE {
            return Err(corruption("overflow payload exceeds its page"));
        }
        let payload: &[u8] = read_overflow_payload(&page);
        let n: usize = if payload.len() <= left {
            payload.len()
        } else {
            left
        };
        let ghost before = full@;
        let ghost fuel = (max_iterations - iterations) as nat;
        let ghost next = page::next_of(page.data@);
        append(&mut full, &payload[0..n]);
        left -= n;
        current = page.overflow_next();
        proof {
            let part = payload@;
            assert(payload@.subrange(0, n as int) =~= part.take(n as int));
            match chain(m, next, left as nat, fuel) {
                Some(rest) => {
                    assert(full@ + rest =~= before + (part.take(n as int) + rest));
                },
                None => {},
            }
        }
    }
    proof {
        assert(full@ + Seq::<u8>::empty() =~= full@);
    }
    Ok(full)
}

// ---------------------------------------------------------------------------
// Walking a tree
// ---------------------------------------------------------------------------

/// The tree that pages hold.
pub open spec fn view_of(m: Map<u32, Seq<u8>>) -> Map<u32, Node<u64, Seq<u8>>> {
    btree_node::nodes(m)
}

/// `root` is the root of a row tree in the pages.
pub open spec fn is_tree(m: Map<u32, Seq<u8>>, root: u32) -> bool {
    tree::is_tree(view_of(m), root)
}

/// A tree that is not too deep to be walked.
pub open spec fn walkable(m: Map<u32, Seq<u8>>, root: u32) -> bool {
    is_tree(m, root) && tree::height(view_of(m), root) < MAX_TREE_DEPTH
}

/// No tree is too deep to be walked.
pub proof fn never_deep(m: Map<u32, Seq<u8>>, root: u32)
    requires
        is_tree(m, root),
    ensures
        walkable(m, root),
        tree::height(view_of(m), root) <= 32,
{
    let t = view_of(m);
    let h = tree::height(t, root);
    assert(tree::is_root(t, root, h));
    tree::height_bounded(t, root, h, None, None, 0);
}

/// The cell under a row id.
pub open spec fn cell_at(m: Map<u32, Seq<u8>>, root: u32, rowid: u64) -> Option<Seq<u8>> {
    tree::get(view_of(m), root, rowid)
}

/// All ids and cells of a tree, in ascending order of the ids.
pub open spec fn all_cells(m: Map<u32, Seq<u8>>, root: u32) -> Seq<(u64, Seq<u8>)> {
    tree::all(view_of(m), root)
}

/// Finds the leaf that would hold `rowid`.
pub(crate) fn find_leaf_for_rowid<S: PageSource>(source: &S, root: u32, rowid: u64) -> (r: Result<(u32, Page)>)
    ensures
        walkable(source.visible(), root) ==> {
            let t = view_of(source.visible());
            &&& r matches Ok(lp)
            &&& lp.0 == tree::leaf_for(t, root, tree::height(t, root), rowid)
            &&& tree::has(t, root, lp.0)
            &&& source.visible().contains_key(lp.0)
            &&& lp.1.data@ == source.visible()[lp.0]
            &&& btree_node::row_leaf(lp.1.data@)
            &&& tree::items_ok(btree_node::items_of(lp.1.data@), None, None)
            &&& cell_at(source.visible(), root, rowid) == tree::item_find(
                btree_node::items_of(lp.1.data@),
                rowid,
            )
        },
        r matches Ok(lp) ==> btree_node::row_leaf(lp.1.data@) && source.visible().contains_key(lp.0)
            && lp.1.data@ == source.visible()[lp.0],
        is_tree(source.visible(), root) && !walkable(source.visible(), root) ==> r is Err,
        r matches Err(e) ==> e is Corruption || e is Io,
{
    let ghost m = source.visible();
    let ghost t = view_of(m);
    let ghost top = tree::height(t, root);
    let ghost ok = is_tree(m, root);
    let ghost mut h: nat = top;
    let ghost mut lo: Option<u64> = None;
    let ghost mut hi: Option<u64> = None;
    let ghost mut end: u32 = 0;
    let mut page_no: u32 = root;
    let mut depth: usize = 0;
    proof {
        if ok {
            assert(tree::is_root(t, root, top));
            if top > 0 {
                tree::wf_branch(t, root, top, (top - 1) as nat, None, None, 0);
            } else {
                tree::leaf_facts(t, root);
            }
        }
    }
    while depth < MAX_TREE_DEPTH
        invariant
            depth <= 64,
            m == source.visible(),
            t == view_of(m),
            ok == is_tree(m, root),
            top == tree::height(t, root),
            ok ==> {
                &&& tree::wf(t, page_no, h, lo, hi, end)
                &&& tree::in_range(lo, hi, rowid)
                &&& tree::find(t, root, top, rowid) == tree::find(t, page_no, h, rowid)
                &&& tree::leaf_for(t, root, top, rowid) == tree::leaf_for(t, page_no, h, rowid)
                &&& tree::owns(t, root, top, page_no)
                &&& forall|q: u32| #[trigger]
                    tree::owns(t, page_no, h, q) ==> tree::owns(t, root, top, q)
                &&& depth + h == top
            },
        decreases 64 - depth,
    {
        proof {
            if ok {
                tree::wf_shape(t, page_no, h, lo, hi, end);
            }
        }
        let page: Page = source.fetch(page_no)?;
        proof {
            btree_node::leaf_basics(page.data@);
            assert(ok ==> t[page_no] == btree_node::node_of(page.data@));
        }
        if page.is_leaf() {
            if !check_row_leaf(&page) {
                return Err(corruption("malformed leaf page"));
            }
            proof {
                if ok {
                    tree::wf_leaf(t, page_no, lo, hi, end);
                    tree::leaf_facts(t, page_no);
                    let items = btree_node::items_of(page.data@);
                    assert(tree::items_ok(items, None, None));
                }
            }
            return Ok((page_no, page));
        }
        if !check_branch(&page) {
            return Err(corruption("malformed branch page"));
        }
        let (i, child): (usize, u32) = find_child(&page, rowid);
        proof {
            if ok {
                let h1 = (h - 1) as nat;
                tree::wf_branch(t, page_no, h, h1, lo, hi, end);
                tree::branch_facts(t, page_no, h, h1);
                let c = t[page_no]->children;
                let k = t[page_no]->keys;
                tree::route_in_kid(k, rowid, lo, hi);
                assert(tree::kid_wf(t, c, k, h1, lo, hi, end, i as int));
                assert(tree::find(t, page_no, h, rowid) == tree::find(t, c[i as int], h1, rowid));
                let lo1 = tree::kid_lo(k, lo, i as int);
                let hi1 = tree::kid_hi(k, hi, i as int);
                let end1 = tree::kid_end(t, c, h1, i as int, end);
                if h1 > 0 {
                    tree::wf_branch(t, child, h1, (h1 - 1) as nat, lo1, hi1, end1);
                } else {
                    tree::leaf_facts(t, child);
                }
                assert(tree::owns(t, c[i as int], h1, child));
                assert forall|q: u32| #[trigger] tree::owns(t, child, h1, q) implies tree::owns(
                    t,
                    root,
                    top,
                    q,
                ) by {
                    assert(tree::owns(t, c[i as int], h1, q));
                    assert(tree::owns(t, page_no, h, q));
                }
                h = h1;
                lo = lo1;
                hi = hi1;
                end = end1;
            }
        }
        page_no = child;
        depth += 1;
    }
    Err(corruption("B+ tree depth exceeds maximum"))
}

/// Searches a tree for a row.
pub(crate) fn search_in<S: PageSource>(source: &S, root: u32, rowid: u64) -> (r: Result<Option<Vec<u8>>>)
    ensures
        found(source.visible(), root, rowid, r),
        r matches Err(e) ==> e is Corruption || e is Io,
{
    let (_, page): (u32, Page) = find_leaf_for_rowid(source, root, rowid)?;
    let (pos, hit): (usize, bool) = find_insertion_point(&page, rowid);
    if !hit {
        return Ok(None);
    }
    let cell: &[u8] = leaf_row(&page, pos);
    proof {
        if walkable(source.visible(), root) {
            let items = btree_node::items_of(page.data@);
            tree::item_find_at(items, None, None, pos as int);
            assert(items[pos as int] == (rowid, cell@));
        }
    }
    let full: Vec<u8> = reassemble_row(cell, source)?;
    Ok(Some(full))
}

/// What a search returns.
pub open spec fn found(
    m: Map<u32, Seq<u8>>,
    root: u32,
    rowid: u64,
    r: Result<Option<Vec<u8>>>,
) -> bool {
    &&& walkable(m, root) ==> match cell_at(m, root, rowid) {
        None => r matches Ok(None),
        Some(cell) => match expand(m, cell) {
            Some(full) => r matches Ok(Some(v)) && v@ == full,
            None => r is Err,
        },
    }
    &&& is_tree(m, root) && !walkable(m, root) ==> r is Err
}

// ---------------------------------------------------------------------------
// Walking along the leaves
// ---------------------------------------------------------------------------

/// Page `i` of the list can be read and points to the one behind it.
pub open spec fn page_linked(m: Map<u32, Seq<u8>>, ls: Seq<u32>, i: int) -> bool {
    &&& m.contains_key(ls[i])
    &&& i > 0 ==> ls[i] != 0
    &&& page::next_of(m[ls[i]]) == if i + 1 < ls.len() {
        ls[i + 1]
    } else {
        0
    }
}

/// The pages form a chain.
pub open spec fn pages_chained(m: Map<u32, Seq<u8>>, ls: Seq<u32>) -> bool {
    &&& forall|i: int| 0 <= i < ls.len() ==> #[trigger] page_linked(m, ls, i)
    &&& ls.no_duplicates()
}

/// The page numbers from `start` on along the chain of leaves. `all` is the
/// chain that `start` is part of, if there is one.
pub(crate) fn follow_chain<S: PageSource>(
    source: &S,
    start: u32,
    Ghost(all): Ghost<Seq<u32>>,
    Ghost(j): Ghost<int>,
) -> (r: Result<Vec<u32>>)
    requires
        source.sound(),
    ensures
        pages_chained(source.visible(), all) && 0 <= j < all.len() && start == all[j] ==> (r matches Ok(ls)
            && ls@ == all.skip(j)),
        r matches Ok(ls) ==> ls@.len() <= u32::MAX,
        r matches Err(e) ==> e is Corruption || e is Io,
{
    let ghost m = source.visible();
    let ghost ok = pages_chained(m, all) && 0 <= j < all.len() && start == all[j];
    let max_pages: u32 = source.page_limit();
    proof {
        if ok {
            source.below_limit();
            assert forall|i: int| 0 <= i < all.len() implies (#[trigger] all[i]) < max_pages by {
                assert(page_linked(m, all, i));
            }
            tree::distinct_bounded(all, max_pages as nat);
        }
    }
    let mut ls: Vec<u32> = Vec::new();
    let mut visited: u32 = 0;
    let mut current: u32 = start;
    loop
        invariant
            m == source.visible(),
            visited <= max_pages,
            ls@.len() == visited,
            ok ==> {
                &&& pages_chained(m, all)
                &&& all.len() <= max_pages
                &&& 0 <= j
                &&& j + visited < all.len()
                &&& current == all[j + visited]
                &&& ls@ == all.subrange(j, j + visited)
            },
            ok == (pages_chained(m, all) && 0 <= j < all.len() && start == all[j]),
        decreases max_pages - visited,
    {
        if visited >= max_pages {
            return Err(corruption("leaf chain cycle detected"));
        }
        assert(ok ==> page_linked(m, all, j + visited));
        let page: Page = source.fetch(current)?;
        ls.push(current);
        visited += 1;
        assert(ok ==> ls@ =~= all.subrange(j, j + visited));
        let next: u32 = page.next_leaf();
        if next == 0 {
            proof {
                if ok {
                    if j + visited < all.len() {
                        assert(page_linked(m, all, j + visited));
                    }
                    assert(ls@ =~= all.skip(j));
                }
            }
            return Ok(ls);
        }
        current = next;
    }
}

/// The leaves of a tree form a chain.
pub proof fn tree_chained(m: Map<u32, Seq<u8>>, root: u32)
    requires
        is_tree(m, root),
    ensures
        ({
            let t = view_of(m);
            let ls = tree::leaves(t, root, tree::height(t, root));
            &&& pages_chained(m, ls)
            &&& ls.len() > 0
            &&& ls[0] == tree::first_leaf(t, root, tree::height(t, root))
            &&& tree::leaf_rows(t, ls) == all_cells(m, root)
            &&& forall|i: int|
                0 <= i < ls.len() ==> {
                    &&& m.contains_key(#[trigger] ls[i])
                    &&& btree_node::row_leaf(m[ls[i]])
                    &&& t[ls[i]]->items == btree_node::items_of(m[ls[i]])
                    &&& tree::has(t, root, ls[i])
                }
        }),
{
    let t = view_of(m);
    let h = tree::height(t, root);
    assert(tree::is_root(t, root, h));
    tree::leaves_chained(t, root, h, None, None, 0);
    let ls = tree::leaves(t, root, h);
    assert forall|i: int| 0 <= i < ls.len() implies #[trigger] page_linked(m, ls, i) by {
        assert(tree::linked(t, ls, 0, i));
        assert(tree::owns(t, root, h, ls[i]));
        if i > 0 && ls[i] == 0 {
            assert(ls[0] == ls[i]);
        }
    }
    assert forall|i: int| 0 <= i < ls.len() implies {
        &&& m.contains_key(#[trigger] ls[i])
        &&& btree_node::row_leaf(m[ls[i]])
        &&& t[ls[i]]->items == btree_node::items_of(m[ls[i]])
        &&& tree::has(t, root, ls[i])
    } by {
        assert(tree::linked(t, ls, 0, i));
    }
}

/// Finds the leftmost leaf.
fn find_leftmost_leaf<S: PageSource>(source: &S, root: u32) -> (r: Result<u32>)
    ensures
        walkable(source.visible(), root) ==> (r matches Ok(p) && p == tree::first_leaf(
            view_of(source.visible()),
            root,
            tree::height(view_of(source.visible()), root),
        )),
        is_tree(source.visible(), root) && !walkable(source.visible(), root) ==> r is Err,
        r matches Err(e) ==> e is Corruption || e is Io,
{
    let ghost m = source.visible();
    let ghost t = view_of(m);
    let ghost top = tree::height(t, root);
    let ghost ok = is_tree(m, root);
    let ghost mut h: nat = top;
    let ghost mut lo: Option<u64> = None;
    let ghost mut hi: Option<u64> = None;
    let ghost mut end: u32 = 0;
    let mut page_no: u32 = root;
    let mut depth: usize = 0;
    assert(ok ==> tree::is_root(t, root, top));
    while depth < MAX_TREE_DEPTH
        invariant
            depth <= 64,
            m == source.visible(),
            t == view_of(m),
            ok == is_tree(m, root),
            top == tree::height(t, root),
            ok ==> {
                &&& tree::wf(t, page_no, h, lo, hi, end)
                &&& tree::first_leaf(t, root, top) == tree::first_leaf(t, page_no, h)
                &&& depth + h == top
            },
        decreases 64 - depth,
    {
        proof {
            if ok {
                tree::wf_shape(t, page_no, h, lo, hi, end);
            }
        }
        let page: Page = source.fetch(page_no)?;
        proof {
            btree_node::leaf_basics(page.data@);
            assert(ok ==> t[page_no] == btree_node::node_of(page.data@));
        }
        if page.is_leaf() {
            proof {
                if ok {
                    tree::leaf_facts(t, page_no);
                }
            }
            return Ok(page_no);
        }
        if !check_branch(&page) {
            return Err(corruption("malformed branch page"));
        }
        let child: u32 = get_branch_child(&page, 0);
        proof {
            if ok {
                let h1 = (h - 1) as nat;
                tree::wf_branch(t, page_no, h, h1, lo, hi, end);
                tree::branch_facts(t, page_no, h, h1);
                let c = t[page_no]->children;
                let k = t[page_no]->keys;
                assert(tree::kid_wf(t, c, k, h1, lo, hi, end, 0));
                lo = tree::kid_lo(k, lo, 0);
                hi = tree::kid_hi(k, hi, 0);
                end = tree::kid_end(t, c, h1, 0, end);
                h = h1;
            }
        }
        page_no = child;
        depth += 1;
    }
    Err(corruption("B+ tree depth exceeds maximum in find_leftmost_leaf"))
}

/// The leaves of a tree, from left to right.
pub(crate) fn leaf_list<S: PageSource>(source: &S, root: u32) -> (r: Result<Vec<u32>>)
    requires
        source.sound(),
    ensures
        walkable(source.visible(), root) ==> (r matches Ok(ls) && ls@ == tree::leaves(
            view_of(source.visible()),
            root,
            tree::height(view_of(source.visible()), root),
        )),
        is_tree(source.visible(), root) && !walkable(source.visible(), root) ==> r is Err,
        r matches Ok(ls) ==> ls@.len() <= u32::MAX,
        r matches Err(e) ==> e is Corruption || e is Io,
{
    let first: u32 = find_leftmost_leaf(source, root)?;
    let ghost t = view_of(source.visible());
    let ghost all = tree::leaves(t, root, tree::height(t, root));
    proof {
        if is_tree(source.visible(), root) {
            tree_chained(source.visible(), root);
            assert(all.skip(0) =~= all);
        }
    }
    follow_chain(source, first, Ghost(all), Ghost(0))
}

/// Reads a leaf.
pub(crate) fn fetch_leaf<S: PageSource>(source: &S, page_no: u32) -> (r: Result<Page>)
    ensures
        r is Ok <==> source.visible().contains_key(page_no) && btree_node::row_leaf(
            source.visible()[page_no],
        ),
        r matches Ok(p) ==> p.data@ == source.visible()[page_no],
        r matches Err(e) ==> e is Corruption || e is Io,
{
    let page: Page = source.fetch(page_no)?;
    if !check_row_leaf(&page) {
        return Err(corruption("malformed leaf page"));
    }
    Ok(page)
}

/// Every cell stands for a row with an id.
pub open spec fn all_expand(m: Map<u32, Seq<u8>>, items: Seq<(u64, Seq<u8>)>) -> bool {
    forall|i: int| 0 <= i < items.len() ==> expands(m, (#[trigger] items[i]).1)
}

/// The cell stands for a row with an id.
pub open spec fn expands(m: Map<u32, Seq<u8>>, cell: Seq<u8>) -> bool {
    expand(m, cell) matches Some(full) && full.len() >= 8
}

/// The row that a cell stands for, with its id.
pub open spec fn whole(m: Map<u32, Seq<u8>>, cell: Seq<u8>) -> (u64, Seq<u8>) {
    (btree_node::id_of(expand(m, cell)->0), expand(m, cell)->0)
}

/// The rows that cells stand for.
pub open spec fn expanded(m: Map<u32, Seq<u8>>, items: Seq<(u64, Seq<u8>)>) -> Seq<(u64, Seq<u8>)> {
    items.map_values(|it: (u64, Seq<u8>)| whole(m, it.1))
}

/// Ids and the bytes behind them.
pub open spec fn pairs(v: Seq<(u64, Vec<u8>)>) -> Seq<(u64, Seq<u8>)> {
    v.map_values(|p: (u64, Vec<u8>)| (p.0, p.1@))
}

/// Appends the rows of a leaf.
fn expand_leaf<S: PageSource>(source: &S, page: &Page, out: &mut Vec<(u64, Vec<u8>)>) -> (r: Result<
    (),
>)
    requires
        btree_node::row_leaf(page.data@),
    ensures
        r is Ok <==> all_expand(source.visible(), btree_node::items_of(page.data@)),
        r is Ok ==> pairs(final(out)@) == pairs(old(out)@) + expanded(
            source.visible(),
            btree_node::items_of(page.data@),
        ),
        r matches Err(e) ==> e is Corruption || e is Io,
{
    let ghost m = source.visible();
    let ghost items = btree_node::items_of(page.data@);
    let n: usize = page.num_rows() as usize;
    let mut i: usize = 0;
    assert(pairs(out@) =~= pairs(old(out)@) + expanded(m, items.take(0)));
    while i < n
        invariant
            i <= n == page::count_of(page.data@) == items.len(),
            items == btree_node::items_of(page.data@),
            btree_node::row_leaf(page.data@),
            m == source.visible(),
            forall|k: int| 0 <= k < i ==> expands(m, (#[trigger] items[k]).1),
            pairs(out@) == pairs(old(out)@) + expanded(m, items.take(i as int)),
        decreases n - i,
    {
        let cell: &[u8] = leaf_row(page, i);
        assert(items[i as int].1 == cell@);
        let full: Vec<u8> = reassemble_row(cell, source)?;
        let id: u64 = extract_id(full.as_slice())?;
        let ghost before = out@;
        out.push((id, full));
        proof {
            assert(pairs(out@) =~= pairs(before).push(whole(m, cell@)));
            assert(expanded(m, items.take(i + 1)) =~= expanded(m, items.take(i as int)).push(
                whole(m, cell@),
            ));
        }
        i += 1;
    }
    assert(items.take(n as int) =~= items);
    Ok(())
}

/// What a full scan returns.
pub open spec fn scanned(
    m: Map<u32, Seq<u8>>,
    root: u32,
    r: Result<Vec<(u64, Vec<u8>)>>,
) -> bool {
    &&& walkable(m, root) ==> {
        &&& r is Ok <==> all_expand(m, all_cells(m, root))
        &&& r matches Ok(v) ==> pairs(v@) == expanded(m, all_cells(m, root))
    }
    &&& is_tree(m, root) && !walkable(m, root) ==> r is Err
}

/// All rows of a tree, in ascending order of their ids.
pub(crate) fn scan_rows<S: PageSource>(source: &S, root: u32) -> (r: Result<Vec<(u64, Vec<u8>)>>)
    requires
        source.sound(),
    ensures
        scanned(source.visible(), root, r),
        r matches Err(e) ==> e is Corruption || e is Io,
{
    let leaves: Vec<u32> = leaf_list(source, root)?;
    let ghost m = source.visible();
    let ghost t = view_of(m);
    let ghost ok = is_tree(m, root);
    proof {
        if ok {
            tree_chained(m, root);
        }
        assert(leaves@.take(0) =~= Seq::empty());
    }
    let mut results: Vec<(u64, Vec<u8>)> = Vec::new();
    let mut i: usize = 0;
    assert(pairs(results@) =~= expanded(m, tree::leaf_rows(t, leaves@.take(0))));
    while i < leaves.len()
        invariant
            i <= leaves@.len(),
            m == source.visible(),
            t == view_of(m),
            ok == is_tree(m, root),
            ok ==> {
                &&& tree::leaf_rows(t, leaves@) == all_cells(m, root)
                &&& forall|j: int|
                    0 <= j < leaves@.len() ==> {
                        &&& m.contains_key(#[trigger] leaves@[j])
                        &&& btree_node::row_leaf(m[leaves@[j]])
                        &&& t[leaves@[j]]->items == btree_node::items_of(m[leaves@[j]])
                    }
                &&& pairs(results@) == expanded(m, tree::leaf_rows(t, leaves@.take(i as int)))
                &&& all_expand(m, tree::leaf_rows(t, leaves@.take(i as int)))
            },
        decreases leaves@.len() - i,
    {
        assert(ok ==> m.contains_key(leaves@[i as int]));
        let page: Page = fetch_leaf(source, leaves[i])?;
        let ghost a = tree::leaf_rows(t, leaves@.take(i as int));
        let ghost b = btree_node::items_of(page.data@);
        proof {
            if ok {
                tree::leaf_rows_step(t, leaves@, i as int);
                tree::leaf_rows_parted(t, leaves@, i + 1);
                expanded_concat(m, a, b);
                let c = tree::leaf_rows(t, leaves@.skip(i + 1));
                expanded_concat(m, a + b, c);
            }
        }
        expand_leaf(source, &page, &mut results)?;
        i += 1;
    }
    assert(leaves@.take(leaves@.len() as int) =~= leaves@);
    Ok(results)
}

/// Expanding cells one after another.
pub proof fn expanded_concat(m: Map<u32, Seq<u8>>, a: Seq<(u64, Seq<u8>)>, b: Seq<(u64, Seq<u8>)>)
    ensures
        expanded(m, a + b) == expanded(m, a) + expanded(m, b),
        all_expand(m, a + b) <==> all_expand(m, a) && all_expand(m, b),
{
    assert(expanded(m, a + b) =~= expanded(m, a) + expanded(m, b));
    if all_expand(m, a + b) {
        assert forall|i: int| 0 <= i < a.len() implies expands(m, (#[trigger] a[i]).1) by {
            assert((a + b)[i] == a[i]);
        }
        assert forall|i: int| 0 <= i < b.len() implies expands(m, (#[trigger] b[i]).1) by {
            assert((a + b)[a.len() + i] == b[i]);
        }
    }
    if all_expand(m, a) && all_expand(m, b) {
        assert forall|i: int| 0 <= i < (a + b).len() implies expands(m, (#[trigger] (a + b)[i]).1) by {
            if i < a.len() {
                assert((a + b)[i] == a[i]);
            } else {
                assert((a + b)[i] == b[i - a.len()]);
            }
        }
    }
}

// ---------------------------------------------------------------------------
// Selecting rows
// ---------------------------------------------------------------------------

/// Selecting from one item more.
pub proof fn filter_push<A>(s: Seq<A>, x: A, pred: spec_fn(A) -> bool)
    ensures
        s.push(x).filter(pred) == if pred(x) {
            s.filter(pred).push(x)
        } else {
            s.filter(pred)
        },
{
    reveal(Seq::filter);
    assert(s.push(x).drop_last() =~= s);
}

/// Where no item is selected, nothing comes out.
pub proof fn filter_none<A>(s: Seq<A>, pred: spec_fn(A) -> bool)
    requires
        forall|i: int| 0 <= i < s.len() ==> !pred(#[trigger] s[i]),
    ensures
        s.filter(pred) == Seq::<A>::empty(),
    decreases s.len(),
{
    reveal(Seq::filter);
    if s.len() > 0 {
        filter_none(s.drop_last(), pred);
    }
}

/// Selects the items with one of the given ids.
pub open spec fn id_among(ids: Seq<u64>) -> spec_fn((u64, Seq<u8>)) -> bool {
    |it: (u64, Seq<u8>)| ids.contains(it.0)
}

/// The items with one of the given ids.
pub open spec fn wanted(items: Seq<(u64, Seq<u8>)>, ids: Seq<u64>) -> Seq<(u64, Seq<u8>)> {
    items.filter(id_among(ids))
}

/// The rows that cells stand for, without their ids.
pub open spec fn full_rows(m: Map<u32, Seq<u8>>, items: Seq<(u64, Seq<u8>)>) -> Seq<Seq<u8>> {
    items.map_values(|it: (u64, Seq<u8>)| expand(m, it.1)->0)
}

/// Every cell stands for a row.
pub open spec fn all_whole(m: Map<u32, Seq<u8>>, items: Seq<(u64, Seq<u8>)>) -> bool {
    forall|i: int| 0 <= i < items.len() ==> expand(m, (#[trigger] items[i]).1) is Some
}

/// The bytes behind vectors.
pub open spec fn blobs(v: Seq<Vec<u8>>) -> Seq<Seq<u8>> {
    v.map_values(|b: Vec<u8>| b@)
}

pub open spec fn ascending(ids: Seq<u64>) -> bool {
    forall|i: int, j: int| 0 <= i <= j < ids.len() ==> ids[i] <= ids[j]
}

proof fn whole_concat(m: Map<u32, Seq<u8>>, a: Seq<(u64, Seq<u8>)>, b: Seq<(u64, Seq<u8>)>)
    ensures
        full_rows(m, a + b) == full_rows(m, a) + full_rows(m, b),
        all_whole(m, a + b) <==> all_whole(m, a) && all_whole(m, b),
{
    assert(full_rows(m, a + b) =~= full_rows(m, a) + full_rows(m, b));
    if all_whole(m, a + b) {
        assert forall|i: int| 0 <= i < a.len() implies expand(m, (#[trigger] a[i]).1) is Some by {
            assert((a + b)[i] == a[i]);
        }
        assert forall|i: int| 0 <= i < b.len() implies expand(m, (#[trigger] b[i]).1) is Some by {
            assert((a + b)[a.len() + i] == b[i]);
        }
    }
    if all_whole(m, a) && all_whole(m, b) {
        assert forall|i: int| 0 <= i < (a + b).len() implies expand(
            m,
            (#[trigger] (a + b)[i]).1,
        ) is Some by {
            if i < a.len() {
                assert((a + b)[i] == a[i]);
            } else {
                assert((a + b)[i] == b[i - a.len()]);
            }
        }
    }
}

/// The ids before `r` are used up when items with ids above `x` come.
spec fn used_up(ids: Seq<u64>, r: int, items: Seq<(u64, Seq<u8>)>) -> bool {
    forall|q: int, i: int|
        0 <= q < r && 0 <= i < items.len() ==> (#[trigger] ids[q]) < (#[trigger] items[i]).0
}

/// The id at a place is not beyond the last of some items.
spec fn passed(ids: Seq<u64>, q: int, items: Seq<(u64, Seq<u8>)>, i: int) -> bool {
    i > 0 && ids[q] <= items[i - 1].0
}

/// Appends the rows of a leaf whose ids are among `rowids`, from index
/// `rid_idx` on. Returns the index of the first id not passed yet.
#[verifier::spinoff_prover]
fn pick_from_leaf<S: PageSource>(
    source: &S,
    page: &Page,
    rowids: &[u64],
    rid_idx: usize,
    out: &mut Vec<Vec<u8>>,
) -> (r: Result<usize>)
    requires
        btree_node::row_leaf(page.data@),
        rid_idx <= rowids@.len(),
    ensures
        ({
            let items = btree_node::items_of(page.data@);
            let w = wanted(items, rowids@);
            ascending(rowids@) && tree::items_ok(items, None, None) && used_up(
                rowids@,
                rid_idx as int,
                items,
            ) ==> {
                &&& r is Ok <==> all_whole(source.visible(), w)
                &&& r matches Ok(r2) ==> {
                    &&& forall|q: int|
                        0 <= q < r2 ==> q < rid_idx || ((#[trigger] rowids@[q]) <= items.last().0
                            && items.len() > 0)
                    &&& blobs(final(out)@) == blobs(old(out)@) + full_rows(source.visible(), w)
                }
            }
        }),
        r matches Ok(r2) ==> rid_idx <= r2 <= rowids@.len(),
        r matches Err(e) ==> e is Corruption || e is Io,
{
    let ghost m = source.visible();
    let ghost items = btree_node::items_of(page.data@);
    let ghost ids = rowids@;
    let ghost pred = id_among(ids);
    let ghost ok = ascending(ids) && tree::items_ok(items, None, None) && used_up(
        ids,
        rid_idx as int,
        items,
    );
    let n: usize = page.num_rows() as usize;
    let mut rid: usize = rid_idx;
    let mut i: usize = 0;
    proof {
        assert(items.take(0) =~= Seq::empty());
        filter_none(items.take(0), pred);
        assert(blobs(out@) =~= blobs(old(out)@) + full_rows(m, wanted(items.take(0), ids)));
    }
    while i < n
        invariant
            i <= n == page::count_of(page.data@) == items.len(),
            items == btree_node::items_of(page.data@),
            btree_node::row_leaf(page.data@),
            m == source.visible(),
            ids == rowids@,
            pred == id_among(ids),
            rid_idx <= rid <= ids.len(),
            ok == (ascending(ids) && tree::items_ok(items, None, None) && used_up(
                ids,
                rid_idx as int,
                items,
            )),
            ok ==> {
                &&& forall|q: int|
                    rid_idx <= q < rid ==> #[trigger] passed(ids, q, items, i as int)
                &&& all_whole(m, wanted(items.take(i as int), ids))
                &&& blobs(out@) == blobs(old(out)@) + full_rows(
                    m,
                    wanted(items.take(i as int), ids),
                )
            },
        decreases n - i,
    {
        let cell: &[u8] = leaf_row(page, i);
        let row_id: u64 = bytes::read_u64(cell, 0);
        let ghost it = items[i as int];
        assert(it == (row_id, cell@));
        let ghost before = out@;
        let ghost w0 = wanted(items.take(i as int), ids);
        proof {
            if ok {
                assert forall|q: int| 0 <= q < rid implies #[trigger] ids[q] < row_id by {
                    if q >= rid_idx {
                        assert(passed(ids, q, items, i as int));
                        assert(items[i - 1].0.before(items[i as int].0));
                    } else {
                        assert(ids[q] < items[i as int].0);
                    }
                }
            }
        }
        while rid < rowids.len() && rowids[rid] < row_id
            invariant
                rid_idx <= rid <= ids.len(),
                ids == rowids@,
                ok ==> forall|q: int| 0 <= q < rid ==> #[trigger] ids[q] < row_id,
            decreases ids.len() - rid,
        {
            rid += 1;
        }
        proof {
            if ok {
                filter_push(items.take(i as int), it, pred);
                assert(items.take(i + 1) =~= items.take(i as int).push(it));
                if rid < ids.len() && ids[rid as int] == row_id {
                    assert(ids.contains(row_id));
                } else {
                    assert(!ids.contains(row_id)) by {
                        if ids.contains(row_id) {
                            let q = choose|q: int| 0 <= q < ids.len() && ids[q] == row_id;
                            assert(q >= rid);
                            assert(ids[rid as int] <= ids[q]);
                        }
                    }
                }
                filter_rest(items, i + 1, pred);
            }
        }
        if rid < rowids.len() && rowids[rid] == row_id {
            proof {
                if ok {
                    assert(wanted(items.take(i + 1), ids) == w0.push(it));
                    assert(w0.push(it) == w0 + seq![it]);
                    whole_concat(m, w0, seq![it]);
                    whole_concat(
                        m,
                        wanted(items.take(i + 1), ids),
                        wanted(items.skip(i + 1), ids),
                    );
                    assert(seq![it][0] == it);
                }
            }
            let full: Vec<u8> = reassemble_row(cell, source)?;
            out.push(full);
            rid += 1;
            assert(blobs(out@) =~= blobs(before).push(full@));
            proof {
                if ok {
                    assert(full_rows(m, seq![it]) =~= seq![full@]);
                    assert(blobs(out@) =~= blobs(old(out)@) + (full_rows(m, w0) + seq![full@]));
                }
            }
        }
        i += 1;
    }
    assert(items.take(n as int) =~= items);
    assert(ok ==> all_whole(m, wanted(items, ids)));
    assert(ok ==> blobs(out@) == blobs(old(out)@) + full_rows(m, wanted(items, ids)));
    assert(i == n);
    assert forall|q: int| ok && 0 <= q < rid implies q < rid_idx || ((#[trigger] ids[q])
        <= items.last().0 && items.len() > 0) by {
        assert(q < rid_idx || passed(ids, q, items, n as int));
    }
    Ok(rid)
}

/// Selecting from items parted at `j`.
proof fn filter_rest<A>(s: Seq<A>, j: int, pred: spec_fn(A) -> bool)
    requires
        0 <= j <= s.len(),
    ensures
        s.filter(pred) == s.take(j).filter(pred) + s.skip(j).filter(pred),
{
    assert(s =~= s.take(j) + s.skip(j));
    Seq::filter_distributes_over_add(s.take(j), s.skip(j), pred);
}

/// The value of a column by which a row is filtered: that of the whole row, or
/// null if it has none.
pub open spec fn seen(m: Map<u32, Seq<u8>>, cell: Seq<u8>, col: u16) -> Option<ValueView> {
    match expand(m, cell) {
        None => None,
        Some(full) => if !overflow::overflows(cell) && !has_raw(full, col) {
            Some(ValueView::Null)
        } else {
            match row::column_of(full, col) {
                None => None,
                Some(None) => Some(ValueView::Null),
                Some(Some(v)) => Some(v),
            }
        },
    }
}

/// The directory of the row leads to the bytes of the column.
pub open spec fn has_raw(full: Seq<u8>, col: u16) -> bool {
    row::lookup(full, col) matches row::Lookup::At(i) && row::raw_ok(full, i)
}

/// The row passes the filter.
pub open spec fn hit(
    m: Map<u32, Seq<u8>>,
    cell: Seq<u8>,
    col: u16,
    op: FilterOp,
    val: ValueView,
) -> bool {
    seen(m, cell, col) matches Some(v) && filter::holds(v, op, val)
}

/// Selects the items that pass the filter.
pub open spec fn hits(m: Map<u32, Seq<u8>>, col: u16, op: FilterOp, val: ValueView) -> spec_fn(
    (u64, Seq<u8>),
) -> bool {
    |it: (u64, Seq<u8>)| hit(m, it.1, col, op, val)
}

/// Every row can be filtered by the column.
pub open spec fn filterable(m: Map<u32, Seq<u8>>, items: Seq<(u64, Seq<u8>)>, col: u16) -> bool {
    forall|i: int|
        0 <= i < items.len() ==> expands(m, (#[trigger] items[i]).1) && seen(m, items[i].1, col) is Some
}

/// Evaluates a filter on the row of a cell. Hands out the whole row too.
fn filter_cell<S: PageSource>(
    source: &S,
    cell: &[u8],
    col: u16,
    op: FilterOp,
    val: &Value,
) -> (r: Result<(bool, Vec<u8>)>)
    ensures
        r is Ok <==> seen(source.visible(), cell@, col) is Some,
        r matches Ok(x) ==> x.0 == hit(source.visible(), cell@, col, op, val@) && Some(x.1@) == expand(
            source.visible(),
            cell@,
        ),
        r matches Err(e) ==> e is Corruption || e is Io,
{
    let full: Vec<u8> = reassemble_row(cell, source)?;
    if !has_overflow(cell) {
        let raw_there: bool = match row::extract_column_raw(full.as_slice(), col) {
            Ok(Some(_)) => true,
            _ => false,
        };
        if !raw_there {
            let m: bool = eval_filter_op(&Value::Null, &op, val);
            return Ok((m, full));
        }
    }
    match extract_column(full.as_slice(), col) {
        Err(e) => Err(e),
        Ok(None) => {
            let m: bool = eval_filter_op(&Value::Null, &op, val);
            Ok((m, full))
        },
        Ok(Some(actual)) => {
            let m: bool = eval_filter_op(&actual, &op, val);
            Ok((m, full))
        },
    }
}

/// The part of a sequence behind the first `skip` items, at most `take` long.
pub open spec fn window<A>(s: Seq<A>, skip: int, take: int) -> Seq<A> {
    let a = if skip <= s.len() {
        skip
    } else {
        s.len() as int
    };
    let b = if skip + take <= s.len() {
        skip + take
    } else {
        s.len() as int
    };
    s.subrange(a, b)
}

proof fn window_push<A>(s: Seq<A>, x: A, skip: int, take: int)
    requires
        0 <= skip,
        0 <= take,
    ensures
        window(s.push(x), skip, take) == if skip <= s.len() < skip + take {
            window(s, skip, take).push(x)
        } else {
            window(s, skip, take)
        },
{
    let w = window(s.push(x), skip, take);
    if skip <= s.len() < skip + take {
        assert(w =~= window(s, skip, take).push(x));
    } else {
        assert(w =~= window(s, skip, take));
    }
}

/// How many of `n` matches are counted when counting stops after `stop` of them.
pub open spec fn counted(n: nat, stop: Option<u64>) -> nat {
    match stop {
        Some(s) if s < n => s as nat,
        _ => n,
    }
}

/// The matches `sel` so far are counted and collected.
#[verifier::opaque]
spec fn collected(
    m: Map<u32, Seq<u8>>,
    sel: Seq<(u64, Seq<u8>)>,
    skip: int,
    take: int,
    total: u64,
    out: Seq<(u64, Vec<u8>)>,
) -> bool {
    &&& total == sel.len()
    &&& pairs(out) == expanded(m, window(sel, skip, take))
}

/// Filters the rows of a leaf. Returns whether counting has to stop, and how
/// many rows were looked at.
fn filter_leaf<S: PageSource>(
    source: &S,
    page: &Page,
    col: u16,
    op: FilterOp,
    val: &Value,
    skip: u64,
    take: u64,
    stop_after: Option<u64>,
    total: &mut u64,
    out: &mut Vec<(u64, Vec<u8>)>,
    Ghost(done): Ghost<Seq<(u64, Seq<u8>)>>,
) -> (r: Result<(bool, Ghost<int>)>)
    requires
        btree_node::row_leaf(page.data@),
        skip <= u32::MAX,
        take <= u32::MAX,
        *old(total) <= 0x7FFF_FFFF_FFFF_FFFF,
        ({
            let sel = done.filter(hits(source.visible(), col, op, val@));
            &&& counted(sel.len() + 1, stop_after) == sel.len() + 1
            &&& collected(source.visible(), sel, skip as int, take as int, *old(total), old(out)@)
        }),
    ensures
        *final(total) <= *old(total) + 4096,
        ({
            let m = source.visible();
            let items = btree_node::items_of(page.data@);
            let pred = hits(m, col, op, val@);
            &&& filterable(m, items, col) ==> r is Ok
            &&& r matches Ok(stop) ==> {
                let n = stop.1@;
                let sel = (done + items.take(n)).filter(pred);
                &&& 0 <= n <= items.len()
                &&& collected(m, sel, skip as int, take as int, *final(total), final(out)@)
                &&& stop.0 ==> (counted(sel.len(), stop_after) == sel.len() && counted(
                    sel.len() + 1,
                    stop_after,
                ) == sel.len())
                &&& !stop.0 ==> n == items.len() && counted(sel.len() + 1, stop_after) == sel.len()
                    + 1
            }
        }),
        r matches Err(e) ==> e is Corruption || e is Io,
{
    let ghost m = source.visible();
    let ghost items = btree_node::items_of(page.data@);
    let ghost pred = hits(m, col, op, val@);
    let n: usize = page.num_rows() as usize;
    let mut i: usize = 0;
    proof {
        btree_node::leaf_basics(page.data@);
        assert(done + items.take(0) =~= done);
    }
    while i < n
        invariant
            i <= n == page::count_of(page.data@) == items.len(),
            n <= 4096,
            items == btree_node::items_of(page.data@),
            btree_node::row_leaf(page.data@),
            m == source.visible(),
            pred == hits(m, col, op, val@),
            skip <= u32::MAX,
            take <= u32::MAX,
            *old(total) <= 0x7FFF_FFFF_FFFF_FFFF,
            *total <= *old(total) + i,
            ({
                let sel = (done + items.take(i as int)).filter(pred);
                &&& counted(sel.len() + 1, stop_after) == sel.len() + 1
                &&& collected(m, sel, skip as int, take as int, *total, out@)
            }),
        decreases n - i,
    {
        proof {
            reveal(collected);
        }
        let cell: &[u8] = leaf_row(page, i);
        let ghost it = items[i as int];
        assert(it.1 == cell@);
        let ghost before = out@;
        let ghost sel0 = (done + items.take(i as int)).filter(pred);
        proof {
            assert(done + items.take(i + 1) =~= (done + items.take(i as int)).push(it));
            filter_push(done + items.take(i as int), it, pred);
        }
        let (matches, full): (bool, Vec<u8>) = filter_cell(source, cell, col, op, val)?;
        if matches {
            proof {
                window_push(sel0, it, skip as int, take as int);
            }
            *total = *total + 1;
            if *total > skip && *total - skip <= take {
                let id: u64 = extract_id(full.as_slice())?;
                out.push((id, full));
                proof {
                    assert(pairs(out@) =~= pairs(before).push(whole(m, it.1)));
                    assert(expanded(m, window(sel0, skip as int, take as int).push(it)) =~= expanded(
                        m,
                        window(sel0, skip as int, take as int),
                    ).push(whole(m, it.1)));
                }
            }
            if let Some(max) = stop_after {
                if *total >= max {
                    assert((done + items.take(i + 1)).filter(pred) == sel0.push(it));
                    return Ok((true, Ghost(i + 1)));
                }
            }
        }
        i += 1;
    }
    assert(items.take(n as int) =~= items);
    assert(done + items.take(items.len() as int) == done + items.take(n as int));
    Ok((false, Ghost(n as int)))
}

/// What a filtered scan returns: the rows that pass, from `offset` on and at
/// most `limit` of them, and how many passed before the scan stopped.
pub open spec fn filtered(
    m: Map<u32, Seq<u8>>,
    root: u32,
    col: u16,
    op: FilterOp,
    val: ValueView,
    limit: Option<u32>,
    offset: Option<u32>,
    stop: Option<u64>,
    r: Result<(Vec<(u64, Vec<u8>)>, u64)>,
) -> bool {
    let cells = all_cells(m, root);
    let sel = cells.filter(hits(m, col, op, val));
    let skip: int = if offset is Some {
        offset->0 as int
    } else {
        0
    };
    let take: int = if limit is Some {
        limit->0 as int
    } else {
        u32::MAX as int
    };
    &&& walkable(m, root) ==> {
        &&& filterable(m, cells, col) ==> r is Ok
        &&& r matches Ok(x) ==> {
            &&& x.1 == counted(sel.len(), stop)
            &&& pairs(x.0@) == expanded(m, window(sel.take(x.1 as int), skip, take))
        }
    }
    &&& is_tree(m, root) && !walkable(m, root) ==> r is Err
}

/// Scans a tree with a filter on one column.
fn filter_rows<S: PageSource>(
    source: &S,
    root: u32,
    col: u16,
    op: FilterOp,
    val: &Value,
    limit: Option<u32>,
    offset: Option<u32>,
    stop_after: Option<u64>,
) -> (r: Result<(Vec<(u64, Vec<u8>)>, u64)>)
    requires
        source.sound(),
    ensures
        filtered(source.visible(), root, col, op, val@, limit, offset, stop_after, r),
        r matches Err(e) ==> e is Corruption || e is Io,
{
    let leaves: Vec<u32> = leaf_list(source, root)?;
    let ghost m = source.visible();
    let ghost t = view_of(m);
    let ghost ok = is_tree(m, root);
    let ghost pred = hits(m, col, op, val@);
    let skip: u64 = match offset {
        Some(o) => o as u64,
        None => 0,
    };
    let take: u64 = match limit {
        Some(l) => l as u64,
        None => u32::MAX as u64,
    };
    let mut total: u64 = 0;
    let mut results: Vec<(u64, Vec<u8>)> = Vec::new();
    let ghost mut done: Seq<(u64, Seq<u8>)> = Seq::empty();
    proof {
        if ok {
            tree_chained(m, root);
        }
        assert(leaves@.take(0) =~= Seq::empty());
        filter_none(done, pred);
        assert(pairs(results@) =~= expanded(m, window(done.filter(pred), skip as int, take as int)));
        reveal(collected);
    }
    if stop_after == Some(0u64) {
        assert(all_cells(m, root).filter(pred).take(0) =~= done.filter(pred));
        return Ok((results, 0));
    }
    let mut i: usize = 0;
    while i < leaves.len()
        invariant
            i <= leaves@.len() <= u32::MAX,
            m == source.visible(),
            t == view_of(m),
            ok == is_tree(m, root),
            walkable(m, root) <==> ok,
            pred == hits(m, col, op, val@),
            skip == if offset is Some {
                offset->0 as u64
            } else {
                0
            },
            take == if limit is Some {
                limit->0 as u64
            } else {
                u32::MAX as u64
            },
            total <= 4096 * i,
            counted(done.filter(pred).len() + 1, stop_after) == done.filter(pred).len() + 1,
            collected(m, done.filter(pred), skip as int, take as int, total, results@),
            ok ==> {
                &&& done == tree::leaf_rows(t, leaves@.take(i as int))
                &&& tree::leaf_rows(t, leaves@) == all_cells(m, root)
                &&& forall|j: int|
                    0 <= j < leaves@.len() ==> {
                        &&& m.contains_key(#[trigger] leaves@[j])
                        &&& btree_node::row_leaf(m[leaves@[j]])
                        &&& t[leaves@[j]]->items == btree_node::items_of(m[leaves@[j]])
                    }
            },
        decreases leaves@.len() - i,
    {
        assert(ok ==> m.contains_key(leaves@[i as int]));
        let page: Page = fetch_leaf(source, leaves[i])?;
        let ghost items = btree_node::items_of(page.data@);
        let ghost rest = tree::leaf_rows(t, leaves@.skip(i + 1));
        proof {
            if ok {
                tree::leaf_rows_step(t, leaves@, i as int);
                tree::leaf_rows_parted(t, leaves@, i + 1);
                assert(all_cells(m, root) == (done + items) + rest);
                if filterable(m, all_cells(m, root), col) {
                    assert forall|k: int| 0 <= k < items.len() implies expands(
                        m,
                        (#[trigger] items[k]).1,
                    ) && seen(m, items[k].1, col) is Some by {
                        assert(all_cells(m, root)[done.len() + k] == items[k]);
                    }
                }
            }
        }
        let (stop, seen_rows): (bool, Ghost<int>) = filter_leaf(
            source,
            &page,
            col,
            op,
            val,
            skip,
            take,
            stop_after,
            &mut total,
            &mut results,
            Ghost(done),
        )?;
        proof {
            let n = seen_rows@;
            let part = done + items.take(n);
            if stop {
                if ok {
                    let tail = items.skip(n) + rest;
                    assert(all_cells(m, root) =~= part + tail);
                    Seq::filter_distributes_over_add(part, tail, pred);
                    reveal(collected);
                    assert((part + tail).filter(pred).take(total as int) =~= part.filter(pred));
                }
            } else {
                assert(items.take(n) =~= items);
            }
            done = part;
        }
        if stop {
            return Ok((results, total));
        }
        i += 1;
    }
    proof {
        assert(leaves@.take(leaves@.len() as int) =~= leaves@);
        reveal(collected);
        let sel = done.filter(pred);
        assert(sel.take(total as int) =~= sel);
    }
    Ok((results, total))
}

// ---------------------------------------------------------------------------
// Reading
// ---------------------------------------------------------------------------

/// Read access to a tree in a page file.
pub struct BTreeReader<'a> {
    file: &'a PageFile,
    root: u32,
}

impl<'a> BTreeReader<'a> {
    /// The pages that the reader sees.
    pub closed spec fn pages(&self) -> Map<u32, Seq<u8>> {
        self.file.contents()
    }

    /// The root of the tree.
    pub closed spec fn root_no(&self) -> u32 {
        self.root
    }

    pub fn new(file: &'a PageFile, root: u32) -> (r: BTreeReader<'a>)
        ensures
            r.pages() == file.contents(),
            r.root_no() == root,
    {
        BTreeReader { file, root }
    }

    pub fn root_page(&self) -> (p: u32)
        ensures
            p == self.root_no(),
    {
        self.root
    }

    /// Searches for a row by its id.
    pub fn search(&self, rowid: u64) -> (r: Result<Option<Vec<u8>>>)
        ensures
            found(self.pages(), self.root_no(), rowid, r),
            r matches Err(e) ==> e is Corruption || e is Io,
    {
        search_in(self.file, self.root, rowid)
    }

    /// All rows with their ids, in ascending order of the ids.
    pub fn scan_all(&self) -> (r: Result<Vec<(u64, Vec<u8>)>>)
        ensures
            scanned(self.pages(), self.root_no(), r),
            r matches Err(e) ==> e is Corruption || e is Io,
    {
        scan_rows(self.file, self.root)
    }

    /// The rows whose ids are among `rowids`, which must ascend: found by one walk
    /// along the leaves, from the one that would hold the first id on.
    pub fn multi_get_sorted(&self, rowids: &[u64]) -> (r: Result<Vec<Vec<u8>>>)
        ensures
            walkable(self.pages(), self.root_no()) && ascending(rowids@) ==> {
                let w = wanted(all_cells(self.pages(), self.root_no()), rowids@);
                &&& r is Ok <==> all_whole(self.pages(), w)
                &&& r matches Ok(v) ==> blobs(v@) == full_rows(self.pages(), w)
            },
            rowids@.len() == 0 ==> (r matches Ok(v) && v@.len() == 0),
            r matches Err(e) ==> e is Corruption || e is Io,
    {
        let ghost m = self.pages();
        let ghost root = self.root_no();
        let ghost t = view_of(m);
        let ghost h = tree::height(t, root);
        let ghost ids = rowids@;
        let ghost ok = walkable(m, root) && ascending(ids);
        let ghost pred = id_among(ids);
        let mut results: Vec<Vec<u8>> = Vec::new();
        if rowids.len() == 0 {
            proof {
                filter_none(all_cells(m, root), pred);
                assert(blobs(results@) =~= full_rows(m, wanted(all_cells(m, root), ids)));
            }
            return Ok(results);
        }
        let (start, _): (u32, Page) = find_leaf_for_rowid(self.file, self.root, rowids[0])?;
        let ghost all = tree::leaves(t, root, h);
        let ghost mut j: int = 0;
        proof {
            if ok {
                tree_chained(m, root);
                assert(tree::is_root(t, root, h));
                j = tree::leaf_for_place(t, root, h, None, None, 0, ids[0]);
            }
        }
        let leaves: Vec<u32> = follow_chain(self.file, start, Ghost(all), Ghost(j))?;
        let ghost cells = all_cells(m, root);
        let ghost front = tree::leaf_rows(t, all.take(j));
        let ghost back = tree::leaf_rows(t, leaves@);
        proof {
            if ok {
                tree::leaf_rows_parted(t, all, j);
                tree::all_sorted(t, root);
                assert(cells == front + back);
                assert forall|i: int| 0 <= i < front.len() implies !pred(#[trigger] front[i]) by {
                    assert(front[i].0.before(ids[0]));
                    if ids.contains(front[i].0) {
                        let q = choose|q: int| 0 <= q < ids.len() && ids[q] == front[i].0;
                        assert(ids[0] <= ids[q]);
                    }
                }
                filter_none(front, pred);
                Seq::filter_distributes_over_add(front, back, pred);
                assert(wanted(cells, ids) =~= wanted(back, ids));
                assert forall|a: int, b: int| 0 <= a < b < back.len() implies (
                #[trigger] back[a]).0 < (#[trigger] back[b]).0 by {
                    assert(cells[front.len() + a] == back[a]);
                    assert(cells[front.len() + b] == back[b]);
                    assert(cells[front.len() + a].0.before(cells[front.len() + b].0));
                }
                assert forall|i: int| 0 <= i < leaves@.len() implies {
                    &&& m.contains_key(#[trigger] leaves@[i])
                    &&& btree_node::row_leaf(m[leaves@[i]])
                    &&& t[leaves@[i]]->items == btree_node::items_of(m[leaves@[i]])
                } by {
                    assert(leaves@[i] == all[j + i]);
                }
            }
            assert(leaves@.take(0) =~= Seq::empty());
            filter_none(tree::leaf_rows(t, leaves@.take(0)), pred);
            assert(blobs(results@) =~= full_rows(
                m,
                wanted(tree::leaf_rows(t, leaves@.take(0)), ids),
            ));
        }
        let mut rid_idx: usize = 0;
        let mut i: usize = 0;
        while i < leaves.len() && rid_idx < rowids.len()
            invariant
                i <= leaves@.len(),
                rid_idx <= ids.len(),
                ids == rowids@,
                pred == id_among(ids),
                m == self.pages(),
                m == self.file.visible(),
                t == view_of(m),
                ok ==> {
                    let front = tree::leaf_rows(t, leaves@.take(i as int));
                    let rest = tree::leaf_rows(t, leaves@.skip(i as int));
                    &&& ascending(ids)
                    &&& back == tree::leaf_rows(t, leaves@)
                    &&& forall|a: int, b: int|
                        0 <= a < b < back.len() ==> (#[trigger] back[a]).0 < (#[trigger] back[b]).0
                    &&& forall|k: int|
                        0 <= k < leaves@.len() ==> {
                            &&& m.contains_key(#[trigger] leaves@[k])
                            &&& btree_node::row_leaf(m[leaves@[k]])
                            &&& t[leaves@[k]]->items == btree_node::items_of(m[leaves@[k]])
                        }
                    &&& used_up(ids, rid_idx as int, rest)
                    &&& all_whole(m, wanted(front, ids))
                    &&& blobs(results@) == full_rows(m, wanted(front, ids))
                },
                ok ==> (all_whole(m, wanted(back, ids)) <==> all_whole(m, wanted(cells, ids))),
                ok == (walkable(m, root) && ascending(ids)),
                cells == all_cells(m, root),
                root == self.root_no(),
            decreases leaves@.len() - i,
        {
            assert(ok ==> m.contains_key(leaves@[i as int]));
            let page: Page = fetch_leaf(self.file, leaves[i])?;
            let ghost items = btree_node::items_of(page.data@);
            let ghost a = tree::leaf_rows(t, leaves@.take(i as int));
            let ghost c = tree::leaf_rows(t, leaves@.skip(i + 1));
            proof {
                if ok {
                    tree::leaf_rows_step(t, leaves@, i as int);
                    tree::leaf_rows_parted(t, leaves@, i + 1);
                    tree::leaf_rows_parted(t, leaves@, i as int);
                    let rest = tree::leaf_rows(t, leaves@.skip(i as int));
                    assert(back == (a + items) + c);
                    assert(back == a + rest);
                    assert(rest =~= items + c) by {
                        assert(rest =~= back.skip(a.len() as int));
                        assert(items + c =~= back.skip(a.len() as int));
                    }
                    assert forall|q: int, k: int|
                        0 <= q < rid_idx && 0 <= k < items.len() implies (#[trigger] ids[q]) < (
                    #[trigger] items[k]).0 by {
                        assert(rest[k] == items[k]);
                    }
                    assert forall|x: int, y: int| 0 <= x < y < items.len() implies (
                    #[trigger] items[x]).0.before((#[trigger] items[y]).0) by {
                        assert(back[a.len() + x] == items[x]);
                        assert(back[a.len() + y] == items[y]);
                    }
                    assert(tree::items_ok(items, None, None));
                    Seq::filter_distributes_over_add(a, items, pred);
                    Seq::filter_distributes_over_add(a + items, c, pred);
                    whole_concat(m, wanted(a, ids), wanted(items, ids));
                    whole_concat(m, wanted(a + items, ids), wanted(c, ids));
                }
            }
            let ghost r0 = rid_idx as int;
            rid_idx = pick_from_leaf(self.file, &page, rowids, rid_idx, &mut results)?;
            proof {
                if ok {
                    let rest = tree::leaf_rows(t, leaves@.skip(i as int));
                    assert forall|q: int, k: int|
                        0 <= q < rid_idx && 0 <= k < c.len() implies (#[trigger] ids[q]) < (
                    #[trigger] c[k]).0 by {
                        if q < r0 {
                            assert(rest[items.len() + k] == c[k]);
                        } else {
                            assert(ids[q] <= items.last().0);
                            assert(back[a.len() + items.len() - 1] == items.last());
                            assert(back[a.len() + items.len() + k] == c[k]);
                        }
                    }
                }
            }
            i += 1;
        }
        proof {
            if ok {
                let front = tree::leaf_rows(t, leaves@.take(i as int));
                let rest = tree::leaf_rows(t, leaves@.skip(i as int));
                tree::leaf_rows_parted(t, leaves@, i as int);
                Seq::filter_distributes_over_add(front, rest, pred);
                assert forall|k: int| 0 <= k < rest.len() implies !pred(#[trigger] rest[k]) by {
                    if i == leaves@.len() {
                        assert(leaves@.skip(i as int) =~= Seq::empty());
                    } else if ids.contains(rest[k].0) {
                        let q = choose|q: int| 0 <= q < ids.len() && ids[q] == rest[k].0;
                        assert(ids[q] < rest[k].0);
                    }
                }
                filter_none(rest, pred);
                assert(wanted(back, ids) =~= wanted(front, ids));
            }
        }
        Ok(results)
    }

    /// The rows that pass a filter on one column, from `offset` on and at most
    /// `limit` of them, and how many passed. The scan stops after `stop_after`
    /// of them.
    pub fn scan_filtered(
        &self,
        filter_col_id: u16,
        filter_op: FilterOp,
        filter_val: &Value,
        limit: Option<u32>,
        offset: Option<u32>,
        stop_after: Option<u64>,
    ) -> (r: Result<(Vec<(u64, Vec<u8>)>, u64)>)
        ensures
            filtered(
                self.pages(),
                self.root_no(),
                filter_col_id,
                filter_op,
                filter_val@,
                limit,
                offset,
                stop_after,
                r,
            ),
            r matches Err(e) ==> e is Corruption || e is Io,
    {
        filter_rows(
            self.file,
            self.root,
            filter_col_id,
            filter_op,
            filter_val,
            limit,
            offset,
            stop_after,
        )
    }

    /// Counts the rows that pass a filter on one column.
    pub fn count_filtered(&self, filter_col_id: u16, filter_op: FilterOp, filter_val: &Value) -> (r:
        Result<u64>)
        ensures
            walkable(self.pages(), self.root_no()) ==> {
                let cells = all_cells(self.pages(), self.root_no());
                let pred = hits(self.pages(), filter_col_id, filter_op, filter_val@);
                &&& filterable(self.pages(), cells, filter_col_id) ==> r is Ok
                &&& r matches Ok(n) ==> n == cells.filter(pred).len()
            },
            r matches Err(e) ==> e is Corruption || e is Io,
    {
        let (_, n): (Vec<(u64, Vec<u8>)>, u64) = filter_rows(
            self.file,
            self.root,
            filter_col_id,
            filter_op,
            filter_val,
            Some(0),
            None,
            None,
        )?;
        Ok(n)
    }
}

}
