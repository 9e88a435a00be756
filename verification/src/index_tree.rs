//! Index trees: B+ trees of keys with nothing under them.

use crate::btree;
use crate::btree::{follow_chain, PageSource, MAX_TREE_DEPTH};
use crate::btree_node;
use crate::btree_node::{
    split_within, write_leaf_range, write_leaf_with_insert, write_leaf_without,
};
use crate::btree_writer;
use crate::btree_writer::{fits_parted, relink};
use crate::bytes;
use crate::bytes::{copy_slice, starts_with};
use crate::error::{corruption, BoogyError, Result};
use crate::file;
use crate::file::{PageFile, WriteGuard};
use crate::index_node;
use crate::index_node::{
    branch_split_point, check_idx_branch, check_idx_leaf, collect_idx_branch_flat,
    decode_leaf_entry, encode_entry, find_idx_child, find_idx_insertion_point,
    rebuild_idx_branch_flat, IDX_BRANCH_END, MAX_INDEX_KEY,
};
use crate::page;
use crate::page::{Page, PAGE_HEADER_SIZE};
use crate::room;
use crate::tree;
use crate::tree::{Key, Node};
use vstd::prelude::*;

verus! {

/// `root` is the root of an index tree in the pages.
pub open spec fn is_index(m: Map<u32, Seq<u8>>, root: u32) -> bool {
    tree::is_tree(index_node::idx_view(m), root)
}

/// An index tree that is not too deep to be walked.
pub open spec fn walkable_index(m: Map<u32, Seq<u8>>, root: u32) -> bool {
    is_index(m, root) && tree::height(index_node::idx_view(m), root) < MAX_TREE_DEPTH
}

/// No index is too deep to be walked.
pub proof fn index_never_deep(m: Map<u32, Seq<u8>>, root: u32)
    requires
        is_index(m, root),
    ensures
        walkable_index(m, root),
        tree::height(index_node::idx_view(m), root) <= 32,
{
    let t = index_node::idx_view(m);
    let h = tree::height(t, root);
    assert(tree::is_root(t, root, h));
    tree::height_bounded(t, root, h, None, None, 0);
}

/// Whether the tree holds a key.
pub open spec fn key_at(m: Map<u32, Seq<u8>>, root: u32, k: Seq<u8>) -> Option<()> {
    tree::get(index_node::idx_view(m), root, k)
}

/// All keys of a tree, in ascending order.
pub open spec fn all_keys(m: Map<u32, Seq<u8>>, root: u32) -> Seq<(Seq<u8>, ())> {
    tree::all(index_node::idx_view(m), root)
}

// ---------------------------------------------------------------------------
// Inserting
// ---------------------------------------------------------------------------

/// How an insertion below a page went.
pub enum IdxInsertResult {
    Fit,
    Split { new_page: u32, separator: Vec<u8> },
}

/// The index at which a key belongs among ascending ones.
pub open spec fn idx_place(items: Seq<(Seq<u8>, ())>, k: Seq<u8>, pos: int) -> bool {
    &&& 0 <= pos <= items.len()
    &&& forall|i: int| 0 <= i < pos ==> (#[trigger] items[i]).0.before(k)
    &&& forall|i: int| pos <= i < items.len() ==> k.before((#[trigger] items[i]).0)
}

/// Pages outside the tree below `p` are as they were, but for the back pointer
/// of the leaf that follows it.
pub open spec fn rest_kept(
    m: Map<u32, Seq<u8>>,
    m2: Map<u32, Seq<u8>>,
    p: u32,
    h: nat,
    end: u32,
) -> bool {
    forall|q: u32| #[trigger]
        m.contains_key(q) && !tree::owns(index_node::idx_view(m), p, h, q) ==> m2.contains_key(q) && (
        m2[q] == m[q] || (q == end && end != 0 && btree_writer::relinked(m[q], m2[q])))
}

/// A relinked page holds the same node.
proof fn relinked_node(a: Seq<u8>, b: Seq<u8>)
    requires
        btree_writer::relinked(a, b),
    ensures
        index_node::idx_node_of(a) == index_node::idx_node_of(b),
{
    page::agree_at(a, b, 8);
    index_node::idx_same_body(a, b);
}

/// What is kept as bytes is kept as nodes.
proof fn rest_kept_nodes(m: Map<u32, Seq<u8>>, m2: Map<u32, Seq<u8>>, p: u32, h: nat, end: u32)
    requires
        rest_kept(m, m2, p, h, end),
    ensures
        tree::kept(index_node::idx_view(m), index_node::idx_view(m2), p, h),
{
    let t = index_node::idx_view(m);
    let t2 = index_node::idx_view(m2);
    assert forall|q: u32| #[trigger] t.contains_key(q) && !tree::owns(t, p, h, q) implies t2.contains_key(q)
        && t2[q] == t[q] by {
        assert(m.contains_key(q));
        if m2[q] != m[q] {
            relinked_node(m[q], m2[q]);
        }
    }
}

/// A subtree took a row.
#[verifier::opaque]
pub open spec fn grown(
    m: Map<u32, Seq<u8>>,
    m2: Map<u32, Seq<u8>>,
    p: u32,
    h: nat,
    lo: Option<Seq<u8>>,
    hi: Option<Seq<u8>>,
    end: u32,
    k: Seq<u8>,
    cell: (),
) -> bool {
    let t = index_node::idx_view(m);
    let t2 = index_node::idx_view(m2);
    &&& tree::wf(t2, p, h, lo, hi, end)
    &&& tree::first_leaf(t2, p, h) == tree::first_leaf(t, p, h)
    &&& tree::claims(t, t2, p, p, h)
    &&& rest_kept(m, m2, p, h, end)
    &&& forall|k2: Seq<u8>|
        tree::in_range(lo, hi, k2) ==> #[trigger] tree::find(t2, p, h, k2) == if k2 == k {
            Some(cell)
        } else {
            tree::find(t, p, h, k2)
        }
}

/// A subtree took a row and split: the part from `sep` on is now below `n`.
#[verifier::opaque]
pub open spec fn parted(
    m: Map<u32, Seq<u8>>,
    m2: Map<u32, Seq<u8>>,
    p: u32,
    n: u32,
    h: nat,
    lo: Option<Seq<u8>>,
    hi: Option<Seq<u8>>,
    end: u32,
    sep: Seq<u8>,
    k: Seq<u8>,
    cell: (),
) -> bool {
    let t = index_node::idx_view(m);
    let t2 = index_node::idx_view(m2);
    &&& tree::split_ok(t, t2, p, n, h, lo, hi, end, sep)
    &&& rest_kept(m, m2, p, h, end)
    &&& forall|k2: Seq<u8>|
        tree::in_range(lo, hi, k2) ==> #[trigger] tree::split_find(t2, p, n, h, sep, k2) == if k2
            == k {
            Some(cell)
        } else {
            tree::find(t, p, h, k2)
        }
}

/// The subtree and the leaf behind it are there.
pub open spec fn ready(
    m: Map<u32, Seq<u8>>,
    p: u32,
    h: nat,
    lo: Option<Seq<u8>>,
    hi: Option<Seq<u8>>,
    end: u32,
) -> bool {
    let t = index_node::idx_view(m);
    &&& tree::wf(t, p, h, lo, hi, end)
    &&& end != 0 ==> m.contains_key(end) && !tree::owns(t, p, h, end) && !(t[end] is Other)
}

/// A child of a branch, with the leaf behind it, is there if the branch is.
proof fn kid_ready(
    m: Map<u32, Seq<u8>>,
    p: u32,
    h: nat,
    h1: nat,
    lo: Option<Seq<u8>>,
    hi: Option<Seq<u8>>,
    end: u32,
    i: int,
)
    requires
        h == h1 + 1,
        ready(m, p, h, lo, hi, end),
        0 <= i < index_node::idx_view(m)[p]->children.len(),
    ensures
        ({
            let t = index_node::idx_view(m);
            let c = t[p]->children;
            let k = t[p]->keys;
            &&& t[p] is Branch
            &&& c.len() == k.len() + 1
            &&& ready(
                m,
                c[i],
                h1,
                tree::kid_lo(k, lo, i),
                tree::kid_hi(k, hi, i),
                tree::kid_end(t, c, h1, i, end),
            )
            &&& forall|q: u32| #[trigger] tree::owns(t, c[i], h1, q) ==> tree::owns(t, p, h, q)
            &&& tree::kid_end(t, c, h1, i, end) != end ==> tree::owns(
                t,
                p,
                h,
                tree::kid_end(t, c, h1, i, end),
            )
            &&& !tree::owns(t, c[i], h1, p)
            &&& tree::owns(t, p, h, p)
        }),
{
    let t = index_node::idx_view(m);
    tree::wf_branch(t, p, h, h1, lo, hi, end);
    let c = t[p]->children;
    let k = t[p]->keys;
    assert(tree::kid_wf(t, c, k, h1, lo, hi, end, i));
    let e = tree::kid_end(t, c, h1, i, end);
    assert forall|q: u32| #[trigger] tree::owns(t, c[i], h1, q) implies tree::owns(t, p, h, q) by {}
    if i + 1 < c.len() {
        assert(tree::kid_wf(t, c, k, h1, lo, hi, end, i + 1));
        let lo2 = tree::kid_lo(k, lo, i + 1);
        let hi2 = tree::kid_hi(k, hi, i + 1);
        let e2 = tree::kid_end(t, c, h1, i + 1, end);
        tree::first_leaf_owned(t, c[i + 1], h1, lo2, hi2, e2);
        tree::owned_exist(t, c[i + 1], h1, lo2, hi2, e2);
        assert(tree::owns(t, c[i + 1], h1, e));
        assert(!tree::owns(t, c[i], h1, e)) by {
            if tree::owns(t, c[i], h1, e) {
                assert(tree::owns(t, c[i], h1, e) && tree::owns(t, c[i + 1], h1, e));
            }
        }
    }
    assert(!tree::owns(t, c[i], h1, p));
}

/// What is kept around a child is kept around the branch.
proof fn rest_kept_up(
    m: Map<u32, Seq<u8>>,
    m2: Map<u32, Seq<u8>>,
    p: u32,
    h: nat,
    h1: nat,
    lo: Option<Seq<u8>>,
    hi: Option<Seq<u8>>,
    end: u32,
    i: int,
)
    requires
        h == h1 + 1,
        ready(m, p, h, lo, hi, end),
        0 <= i < index_node::idx_view(m)[p]->children.len(),
        ({
            let t = index_node::idx_view(m);
            let c = t[p]->children;
            rest_kept(m, m2, c[i], h1, tree::kid_end(t, c, h1, i, end))
        }),
    ensures
        rest_kept(m, m2, p, h, end),
{
    kid_ready(m, p, h, h1, lo, hi, end, i);
    let t = index_node::idx_view(m);
    let c = t[p]->children;
    assert forall|q: u32| #[trigger]
        m.contains_key(q) && !tree::owns(t, p, h, q) implies m2.contains_key(q) && (m2[q] == m[q]
        || (q == end && end != 0 && btree_writer::relinked(m[q], m2[q]))) by {
        assert(!tree::owns(t, c[i], h1, q));
    }
}

/// A branch whose child took a row.
proof fn branch_grew(
    m: Map<u32, Seq<u8>>,
    m2: Map<u32, Seq<u8>>,
    p: u32,
    h: nat,
    h1: nat,
    lo: Option<Seq<u8>>,
    hi: Option<Seq<u8>>,
    end: u32,
    i: int,
    k: Seq<u8>,
    cell: (),
)
    requires
        h == h1 + 1,
        ready(m, p, h, lo, hi, end),
        0 <= i < index_node::idx_view(m)[p]->children.len(),
        i == tree::route(index_node::idx_view(m)[p]->keys, k),
        ({
            let t = index_node::idx_view(m);
            let c = t[p]->children;
            let ks = t[p]->keys;
            grown(
                m,
                m2,
                c[i],
                h1,
                tree::kid_lo(ks, lo, i),
                tree::kid_hi(ks, hi, i),
                tree::kid_end(t, c, h1, i, end),
                k,
                cell,
            )
        }),
    ensures
        grown(m, m2, p, h, lo, hi, end, k, cell),
{
    reveal(grown);
    let t = index_node::idx_view(m);
    let t2 = index_node::idx_view(m2);
    let c = t[p]->children;
    let ks = t[p]->keys;
    kid_ready(m, p, h, h1, lo, hi, end, i);
    rest_kept_nodes(m, m2, c[i], h1, tree::kid_end(t, c, h1, i, end));
    rest_kept_up(m, m2, p, h, h1, lo, hi, end, i);
    tree::child_changed(t, t2, p, h, h1, lo, hi, end, i);
    tree::branch_facts(t, p, h, h1);
    assert forall|k2: Seq<u8>| tree::in_range(lo, hi, k2) implies #[trigger] tree::find(t2, p, h, k2)
        == if k2 == k {
        Some(cell)
    } else {
        tree::find(t, p, h, k2)
    } by {
        if tree::route(ks, k2) == i {
            tree::route_in_kid(ks, k2, lo, hi);
            assert(tree::find(t2, c[i], h1, k2) == if k2 == k {
                Some(cell)
            } else {
                tree::find(t, c[i], h1, k2)
            });
            assert(tree::find(t, p, h, k2) == tree::find(t, c[i], h1, k2));
        }
    }
}

/// A branch that took the new half of a child.
proof fn branch_took(
    m: Map<u32, Seq<u8>>,
    m2: Map<u32, Seq<u8>>,
    m3: Map<u32, Seq<u8>>,
    p: u32,
    h: nat,
    h1: nat,
    lo: Option<Seq<u8>>,
    hi: Option<Seq<u8>>,
    end: u32,
    i: int,
    n: u32,
    sep: Seq<u8>,
    k: Seq<u8>,
    cell: (),
)
    requires
        h == h1 + 1,
        ready(m, p, h, lo, hi, end),
        0 <= i < index_node::idx_view(m)[p]->children.len(),
        i == tree::route(index_node::idx_view(m)[p]->keys, k),
        ({
            let t = index_node::idx_view(m);
            let c = t[p]->children;
            let ks = t[p]->keys;
            &&& parted(
                m,
                m2,
                c[i],
                n,
                h1,
                tree::kid_lo(ks, lo, i),
                tree::kid_hi(ks, hi, i),
                tree::kid_end(t, c, h1, i, end),
                sep,
                k,
                cell,
            )
            &&& m3 == m2.insert(p, m3[p])
            &&& index_node::idx_node_of(m3[p]) == (Node::<Seq<u8>, ()>::Branch {
                children: c.insert(i + 1, n),
                keys: ks.insert(i, sep),
            })
        }),
    ensures
        grown(m, m3, p, h, lo, hi, end, k, cell),
{
    reveal(grown);
    reveal(parted);
    let t = index_node::idx_view(m);
    let t2 = index_node::idx_view(m2);
    let t3 = index_node::idx_view(m3);
    let c = t[p]->children;
    let ks = t[p]->keys;
    kid_ready(m, p, h, h1, lo, hi, end, i);
    rest_kept_up(m, m2, p, h, h1, lo, hi, end, i);
    assert(t3 =~= t2.insert(p, t3[p]));
    tree::child_split(t, t2, t3, p, h, h1, lo, hi, end, i, n, sep);
    tree::branch_facts(t, p, h, h1);
    split_found(t, t2, t3, p, h, h1, lo, hi, i, n, sep, k, cell);
    assert forall|q: u32| #[trigger]
        m.contains_key(q) && !tree::owns(t, p, h, q) implies m3.contains_key(q) && (m3[q] == m[q]
        || (q == end && end != 0 && btree_writer::relinked(m[q], m3[q]))) by {
        assert(q != p);
    }
}

/// Lookups in a branch that took the new half of a child.
proof fn split_found(
    t: Map<u32, Node<Seq<u8>, ()>>,
    t2: Map<u32, Node<Seq<u8>, ()>>,
    t3: Map<u32, Node<Seq<u8>, ()>>,
    p: u32,
    h: nat,
    h1: nat,
    lo: Option<Seq<u8>>,
    hi: Option<Seq<u8>>,
    i: int,
    n: u32,
    sep: Seq<u8>,
    k: Seq<u8>,
    cell: (),
)
    requires
        h == h1 + 1,
        t[p] is Branch,
        i == tree::route(t[p]->keys, k),
        forall|k2: Seq<u8>|
            tree::in_range(tree::kid_lo(t[p]->keys, lo, i), tree::kid_hi(t[p]->keys, hi, i), k2)
                ==> #[trigger] tree::split_find(t2, t[p]->children[i], n, h1, sep, k2) == if k2
                == k {
                Some(cell)
            } else {
                tree::find(t, t[p]->children[i], h1, k2)
            },
        forall|k2: Seq<u8>|
            tree::in_range(lo, hi, k2) ==> #[trigger] tree::find(t3, p, h, k2) == if tree::route(
                t[p]->keys,
                k2,
            ) == i {
                tree::split_find(t2, t[p]->children[i], n, h1, sep, k2)
            } else {
                tree::find(t, p, h, k2)
            },
    ensures
        forall|k2: Seq<u8>|
            tree::in_range(lo, hi, k2) ==> #[trigger] tree::find(t3, p, h, k2) == if k2 == k {
                Some(cell)
            } else {
                tree::find(t, p, h, k2)
            },
{
    let ks = t[p]->keys;
    let c = t[p]->children;
    tree::branch_facts(t, p, h, h1);
    assert forall|k2: Seq<u8>| tree::in_range(lo, hi, k2) implies #[trigger] tree::find(t3, p, h, k2)
        == if k2 == k {
        Some(cell)
    } else {
        tree::find(t, p, h, k2)
    } by {
        if tree::route(ks, k2) == i {
            tree::route_in_kid(ks, k2, lo, hi);
            assert(tree::split_find(t2, c[i], n, h1, sep, k2) == if k2 == k {
                Some(cell)
            } else {
                tree::find(t, c[i], h1, k2)
            });
            assert(tree::find(t, p, h, k2) == tree::find(t, c[i], h1, k2));
        }
    }
}

/// A branch that took the new half of a child and split itself.
proof fn branch_parted(
    m: Map<u32, Seq<u8>>,
    m2: Map<u32, Seq<u8>>,
    m4: Map<u32, Seq<u8>>,
    p: u32,
    n2: u32,
    h: nat,
    h1: nat,
    lo: Option<Seq<u8>>,
    hi: Option<Seq<u8>>,
    end: u32,
    i: int,
    n: u32,
    sep: Seq<u8>,
    mid: int,
    k: Seq<u8>,
    cell: (),
)
    requires
        h == h1 + 1,
        ready(m, p, h, lo, hi, end),
        0 <= i < index_node::idx_view(m)[p]->children.len(),
        i == tree::route(index_node::idx_view(m)[p]->keys, k),
        !m.contains_key(n2),
        !m2.contains_key(n2),
        m2.contains_key(p),
        ({
            let t = index_node::idx_view(m);
            let c = t[p]->children;
            let ks = t[p]->keys;
            let c2 = c.insert(i + 1, n);
            let k2 = ks.insert(i, sep);
            &&& parted(
                m,
                m2,
                c[i],
                n,
                h1,
                tree::kid_lo(ks, lo, i),
                tree::kid_hi(ks, hi, i),
                tree::kid_end(t, c, h1, i, end),
                sep,
                k,
                cell,
            )
            &&& 0 < mid < k2.len() - 1
            &&& m4 == m2.insert(p, m4[p]).insert(n2, m4[n2])
            &&& index_node::idx_node_of(m4[p]) == (Node::<Seq<u8>, ()>::Branch {
                children: c2.subrange(0, mid + 1),
                keys: k2.subrange(0, mid),
            })
            &&& index_node::idx_node_of(m4[n2]) == (Node::<Seq<u8>, ()>::Branch {
                children: c2.subrange(mid + 1, c2.len() as int),
                keys: k2.subrange(mid + 1, k2.len() as int),
            })
        }),
    ensures
        parted(
            m,
            m4,
            p,
            n2,
            h,
            lo,
            hi,
            end,
            index_node::idx_view(m)[p]->keys.insert(i, sep)[mid],
            k,
            cell,
        ),
{
    reveal(parted);
    let t = index_node::idx_view(m);
    let t2 = index_node::idx_view(m2);
    let t4 = index_node::idx_view(m4);
    let c = t[p]->children;
    let ks = t[p]->keys;
    let node = Node::<Seq<u8>, ()>::Branch {
        children: c.insert(i + 1, n),
        keys: ks.insert(i, sep),
    };
    let t3 = t2.insert(p, node);
    kid_ready(m, p, h, h1, lo, hi, end, i);
    rest_kept_up(m, m2, p, h, h1, lo, hi, end, i);
    tree::child_split(t, t2, t3, p, h, h1, lo, hi, end, i, n, sep);
    split_found(t, t2, t3, p, h, h1, lo, hi, i, n, sep, k, cell);
    assert(t4 =~= t2.insert(p, t4[p]).insert(n2, t4[n2]));
    tree::branch_split(t, t3, t4, p, n2, h, h1, lo, hi, end, mid);
    let sep2 = node->keys[mid];
    assert forall|k2: Seq<u8>| tree::in_range(lo, hi, k2) implies #[trigger] tree::split_find(
        t4,
        p,
        n2,
        h,
        sep2,
        k2,
    ) == if k2 == k {
        Some(cell)
    } else {
        tree::find(t, p, h, k2)
    } by {
        assert(tree::split_find(t4, p, n2, h, sep2, k2) == tree::find(t3, p, h, k2));
    }
    assert forall|q: u32| #[trigger]
        m.contains_key(q) && !tree::owns(t, p, h, q) implies m4.contains_key(q) && (m4[q] == m[q]
        || (q == end && end != 0 && btree_writer::relinked(m[q], m4[q]))) by {
        assert(q != p);
    }
}

/// While a child changes, the branch stays.
proof fn parent_kept(
    m: Map<u32, Seq<u8>>,
    m2: Map<u32, Seq<u8>>,
    p: u32,
    h: nat,
    h1: nat,
    lo: Option<Seq<u8>>,
    hi: Option<Seq<u8>>,
    end: u32,
    i: int,
    n: u32,
    sep: Seq<u8>,
    k: Seq<u8>,
    cell: (),
)
    requires
        h == h1 + 1,
        ready(m, p, h, lo, hi, end),
        0 <= i < index_node::idx_view(m)[p]->children.len(),
        ({
            let t = index_node::idx_view(m);
            let c = t[p]->children;
            let ks = t[p]->keys;
            parted(
                m,
                m2,
                c[i],
                n,
                h1,
                tree::kid_lo(ks, lo, i),
                tree::kid_hi(ks, hi, i),
                tree::kid_end(t, c, h1, i, end),
                sep,
                k,
                cell,
            )
        }),
    ensures
        m2.contains_key(p),
        index_node::idx_node_of(m2[p]) == index_node::idx_node_of(m[p]),
        index_node::idx_branch_ok(m2[p]),
        index_node::idx_children(m2[p]) == index_node::idx_view(m)[p]->children,
        index_node::idx_keys(m2[p]) == index_node::idx_view(m)[p]->keys,
{
    reveal(parted);
    let t = index_node::idx_view(m);
    let c = t[p]->children;
    kid_ready(m, p, h, h1, lo, hi, end, i);
    tree::wf_branch(t, p, h, h1, lo, hi, end);
    assert(m.contains_key(p) && !tree::owns(t, c[i], h1, p));
    if m2[p] != m[p] {
        relinked_node(m[p], m2[p]);
    }
    assert(t[p] == index_node::idx_node_of(m[p]));
}

/// Pages outside the tree are as they were, and the new tree consists of pages
/// of the old one and of new pages.
pub open spec fn only_tree(
    m: Map<u32, Seq<u8>>,
    m2: Map<u32, Seq<u8>>,
    root: u32,
    root2: u32,
) -> bool {
    let t = index_node::idx_view(m);
    let t2 = index_node::idx_view(m2);
    &&& forall|q: u32| #[trigger]
        m.contains_key(q) && !tree::has(t, root, q) ==> m2.contains_key(q) && m2[q] == m[q]
    &&& forall|q: u32| #[trigger] tree::has(t2, root2, q) ==> tree::has(t, root, q) || !m.contains_key(q)
}

/// A tree changed into another one: only its own pages and new ones were
/// written, and the cell under `k` is the only one that differs.
pub open spec fn tree_put(
    m: Map<u32, Seq<u8>>,
    m2: Map<u32, Seq<u8>>,
    root: u32,
    root2: u32,
    k: Seq<u8>,
    cell: Option<()>,
) -> bool {
    let t = index_node::idx_view(m);
    let t2 = index_node::idx_view(m2);
    &&& is_index(m2, root2)
    &&& only_tree(m, m2, root, root2)
    &&& forall|k2: Seq<u8>| #[trigger]
        key_at(m2, root2, k2) == if k2 == k {
            cell
        } else {
            key_at(m, root, k2)
        }
}

/// A root that stays.
proof fn root_stays(
    m: Map<u32, Seq<u8>>,
    m2: Map<u32, Seq<u8>>,
    root: u32,
    h: nat,
    k: Seq<u8>,
    cell: Option<()>,
    total: int,
)
    requires
        tree::is_root(index_node::idx_view(m), root, h),
        tree::wf(index_node::idx_view(m2), root, h, None, None, 0),
        tree::first_leaf(index_node::idx_view(m2), root, h) == tree::first_leaf(
            index_node::idx_view(m),
            root,
            h,
        ),
        tree::claims(index_node::idx_view(m), index_node::idx_view(m2), root, root, h),
        rest_kept(m, m2, root, h, 0),
        btree_writer::fresh(m, m2, total),
        total >= 1,
        forall|k2: Seq<u8>|
            tree::in_range(None, None, k2) ==> #[trigger] tree::find(
                index_node::idx_view(m2),
                root,
                h,
                k2,
            ) == if k2 == k {
                cell
            } else {
                tree::find(index_node::idx_view(m), root, h, k2)
            },
    ensures
        tree_put(m, m2, root, root, k, cell),
        tree::height(index_node::idx_view(m2), root) == h,
{
    let t = index_node::idx_view(m);
    let t2 = index_node::idx_view(m2);
    tree::owned_exist(t2, root, h, None, None, 0);
    tree::height_is(t, root, h);
    assert(tree::is_root(t2, root, h)) by {
        if tree::owns(t2, root, h, 0) {
            assert(m2.contains_key(0));
            assert(t.contains_key(0));
        }
    }
    tree::height_is(t2, root, h);
    assert forall|q: u32| #[trigger]
        m.contains_key(q) && !tree::has(t, root, q) implies m2.contains_key(q) && m2[q] == m[q] by {
        assert(!tree::owns(t, root, h, q));
    }
    assert forall|q: u32| #[trigger] tree::has(t2, root, q) implies tree::has(t, root, q)
        || !m.contains_key(q) by {
        assert(tree::owns(t2, root, h, q));
    }
    assert forall|k2: Seq<u8>| #[trigger] key_at(m2, root, k2) == if k2 == k {
        cell
    } else {
        key_at(m, root, k2)
    } by {
        assert(tree::in_range(None::<Seq<u8>>, None, k2));
        assert(tree::find(t2, root, h, k2) == if k2 == k {
            cell
        } else {
            tree::find(t, root, h, k2)
        });
    }
}

/// A root that split gets a new root above it.
proof fn root_replaced(
    m: Map<u32, Seq<u8>>,
    m2: Map<u32, Seq<u8>>,
    m3: Map<u32, Seq<u8>>,
    root: u32,
    n: u32,
    r: u32,
    h: nat,
    sep: Seq<u8>,
    k: Seq<u8>,
    cell: (),
    total: int,
)
    requires
        tree::is_root(index_node::idx_view(m), root, h),
        parted(m, m2, root, n, h, None, None, 0, sep, k, cell),
        !m.contains_key(r),
        !m2.contains_key(r),
        m3 == m2.insert(r, m3[r]),
        index_node::idx_node_of(m3[r]) == (Node::<Seq<u8>, ()>::Branch {
            children: seq![root, n],
            keys: seq![sep],
        }),
        btree_writer::fresh(m, m3, total),
        total >= 1,
    ensures
        tree_put(m, m3, root, r, k, Some(cell)),
        tree::height(index_node::idx_view(m3), r) == h + 1,
{
    reveal(parted);
    let t = index_node::idx_view(m);
    let t2 = index_node::idx_view(m2);
    let t3 = index_node::idx_view(m3);
    let g = (h + 1) as nat;
    assert(t3 =~= t2.insert(r, t3[r]));
    tree::root_grown(t, t2, t3, root, n, r, g, h, sep);
    tree::owned_exist(t3, r, g, None, None, 0);
    tree::height_is(t, root, h);
    tree::branch_facts(t3, r, g, h);
    assert(tree::is_root(t3, r, g)) by {
        if tree::owns(t3, r, g, 0) {
            assert(m3.contains_key(0));
            assert(t.contains_key(0));
            assert(tree::owns(t, root, h, 0));
            assert(seq![root, n][0] == root);
            // the first leaf of the old root is still the first leaf
            assert(tree::first_leaf(t2, root, h) == 0);
            assert forall|q: u32| #[trigger] tree::owns(t2, root, h, q) implies t3.contains_key(q)
                && t3[q] == t2[q] by {
                tree::owned_exist(t2, root, h, None, Some(sep), tree::first_leaf(t2, n, h));
            }
            tree::frame(t2, t3, root, h, None, Some(sep), tree::first_leaf(t2, n, h));
        }
    }
    tree::height_is(t3, r, g);
    assert forall|q: u32| #[trigger]
        m.contains_key(q) && !tree::has(t, root, q) implies m3.contains_key(q) && m3[q] == m[q] by {
        assert(!tree::owns(t, root, h, q));
    }
    assert forall|q: u32| #[trigger] tree::has(t3, r, q) implies tree::has(t, root, q)
        || !m.contains_key(q) by {
        assert(tree::owns(t3, r, g, q));
    }
    assert forall|k2: Seq<u8>| #[trigger] key_at(m3, r, k2) == if k2 == k {
        Some(cell)
    } else {
        key_at(m, root, k2)
    } by {
        assert(tree::in_range(None::<Seq<u8>>, None, k2));
        assert(tree::find(t3, r, g, k2) == tree::split_find(t2, root, n, h, sep, k2));
        assert(tree::split_find(t2, root, n, h, sep, k2) == if k2 == k {
            Some(cell)
        } else {
            tree::find(t, root, h, k2)
        });
    }
}

/// Leaf `p` was rewritten to hold other cells; nothing else changed.
pub open spec fn leaf_set(
    m: Map<u32, Seq<u8>>,
    m2: Map<u32, Seq<u8>>,
    p: u32,
    cells: Seq<Seq<u8>>,
) -> bool {
    &&& m2 == m.insert(p, m2[p])
    &&& index_node::idx_leaf(m2[p])
    &&& btree_node::cells(m2[p]) == cells
    &&& page::next_of(m2[p]) == page::next_of(m[p])
}

/// A rewritten leaf, seen as a node.
pub proof fn leaf_set_node(m: Map<u32, Seq<u8>>, m2: Map<u32, Seq<u8>>, p: u32, cells: Seq<Seq<u8>>)
    requires
        leaf_set(m, m2, p, cells),
        m.contains_key(p),
        index_node::idx_leaf(m[p]),
        index_node::snug(btree_node::cells(m[p])),
        index_node::snug(cells),
        forall|lo: Option<Seq<u8>>, hi: Option<Seq<u8>>| #[trigger]
            tree::items_ok(index_node::idx_items(m[p]), lo, hi) ==> tree::items_ok(
                index_node::key_items(cells),
                lo,
                hi,
            ),
    ensures
        tree::rewritten(index_node::idx_view(m), index_node::idx_view(m2), p),
        index_node::idx_view(m)[p]->items == index_node::idx_items(m[p]),
        index_node::idx_view(m2)[p]->items == index_node::key_items(cells),
{
    let t = index_node::idx_view(m);
    let t2 = index_node::idx_view(m2);
    assert(t[p] == index_node::idx_node_of(m[p]));
    assert(t2[p] == index_node::idx_node_of(m2[p]));
    assert(m2.contains_key(p)) by {
        assert(m.insert(p, m2[p]).contains_key(p));
    }
    assert(t[p]->items == index_node::idx_items(m[p]));
    assert(t2[p]->items == index_node::key_items(cells));
    assert forall|lo: Option<Seq<u8>>, hi: Option<Seq<u8>>| #[trigger]
        tree::items_ok(t[p]->items, lo, hi) implies tree::items_ok(t2[p]->items, lo, hi) by {
        assert(tree::items_ok(index_node::idx_items(m[p]), lo, hi));
    }
    assert(tree::same_except(t, t2, p)) by {
        assert forall|q: u32| #[trigger] t.contains_key(q) && q != p implies t2.contains_key(q)
            && t2[q] == t[q] by {
            assert(m.contains_key(q));
            assert(m.insert(p, m2[p]).contains_key(q));
        }
    }
}

/// A leaf with one key more.
proof fn leaf_took(
    m: Map<u32, Seq<u8>>,
    m2: Map<u32, Seq<u8>>,
    p: u32,
    lo: Option<Seq<u8>>,
    hi: Option<Seq<u8>>,
    end: u32,
    pos: int,
    k: Seq<u8>,
)
    requires
        tree::wf(index_node::idx_view(m), p, 0, lo, hi, end),
        tree::in_range(lo, hi, k),
        k.len() <= MAX_INDEX_KEY,
        idx_place(index_node::idx_items(m[p]), k, pos),
        m2.contains_key(p),
        index_node::idx_leaf(m2[p]),
        btree_node::cells(m2[p]) == btree_node::cells(m[p]).insert(pos, index_node::entry(k)),
        page::next_of(m2[p]) == page::next_of(m[p]),
        forall|q: u32| #[trigger] m.contains_key(q) && q != p ==> m2.contains_key(q) && m2[q] == m[q],
    ensures
        grown(m, m2, p, 0, lo, hi, end, k, ()),
{
    reveal(grown);
    let t = index_node::idx_view(m);
    let t2 = index_node::idx_view(m2);
    let items = index_node::idx_items(m[p]);
    let items2 = index_node::idx_items(m2[p]);
    index_node::entry_holds(k);
    tree::wf_leaf(t, p, lo, hi, end);
    tree::leaf_facts(t, p);
    assert(t[p] == index_node::idx_node_of(m[p]));
    assert(t2[p] == index_node::idx_node_of(m2[p]));
    assert(t[p]->items == items);
    assert(items2 =~= items.insert(pos, (k, ())));
    tree::items_insert(items, lo, hi, pos, k, ());
    tree::leaf_changed(t, t2, p, lo, hi, end);
    assert forall|k2: Seq<u8>| tree::in_range(lo, hi, k2) implies #[trigger] tree::find(
        t2,
        p,
        0,
        k2,
    ) == if k2 == k {
        Some(())
    } else {
        tree::find(t, p, 0, k2)
    } by {
        assert(tree::item_find(items2, k2) == if k2 == k {
            Some(())
        } else {
            tree::item_find(items, k2)
        });
        assert(tree::find(t, p, 0, k2) == tree::item_find(items, k2));
    }
}

/// A leaf that was split with one key more.
proof fn leaf_parted(
    m: Map<u32, Seq<u8>>,
    m2: Map<u32, Seq<u8>>,
    p: u32,
    n: u32,
    lo: Option<Seq<u8>>,
    hi: Option<Seq<u8>>,
    end: u32,
    pos: int,
    mid: int,
    k: Seq<u8>,
)
    requires
        ready(m, p, 0, lo, hi, end),
        tree::in_range(lo, hi, k),
        k.len() <= MAX_INDEX_KEY,
        idx_place(index_node::idx_items(m[p]), k, pos),
        !m.contains_key(n),
        m2.contains_key(p),
        m2.contains_key(n),
        index_node::idx_leaf(m2[p]),
        index_node::idx_leaf(m2[n]),
        ({
            let rows = btree_node::cells(m[p]).insert(pos, index_node::entry(k));
            &&& 0 < mid < rows.len()
            &&& btree_node::cells(m2[p]) == rows.subrange(0, mid)
            &&& btree_node::cells(m2[n]) == rows.subrange(mid, rows.len() as int)
        }),
        page::next_of(m2[p]) == n,
        page::next_of(m2[n]) == page::next_of(m[p]),
        forall|q: u32| #[trigger]
            m.contains_key(q) && q != p ==> m2.contains_key(q) && (m2[q] == m[q] || (q
                == page::next_of(m[p]) && q != 0 && btree_writer::relinked(m[q], m2[q]))),
    ensures
        parted(
            m,
            m2,
            p,
            n,
            0,
            lo,
            hi,
            end,
            index_node::entry_key(
                btree_node::cells(m[p]).insert(pos, index_node::entry(k))[mid],
            ),
            k,
            (),
        ),
{
    reveal(parted);
    let t = index_node::idx_view(m);
    let t2 = index_node::idx_view(m2);
    let items = index_node::idx_items(m[p]);
    let rows = btree_node::cells(m[p]).insert(pos, index_node::entry(k));
    let all = index_node::key_items(rows);
    let sep = index_node::entry_key(rows[mid]);
    index_node::entry_holds(k);
    tree::wf_leaf(t, p, lo, hi, end);
    tree::leaf_facts(t, p);
    assert(t[p] == index_node::idx_node_of(m[p]));
    assert(t[p]->items == items);
    assert(all =~= items.insert(pos, (k, ())));
    tree::items_insert(items, lo, hi, pos, k, ());
    assert(index_node::idx_items(m2[p]) =~= all.subrange(0, mid));
    assert(index_node::idx_items(m2[n]) =~= all.subrange(mid, all.len() as int));
    assert(t2[p] == index_node::idx_node_of(m2[p]));
    assert(t2[n] == index_node::idx_node_of(m2[n]));
    assert(tree::same_except(t, t2, p)) by {
        assert forall|q: u32| #[trigger] t.contains_key(q) && q != p implies t2.contains_key(q)
            && t2[q] == t[q] by {
            assert(m.contains_key(q));
            if m2[q] != m[q] {
                relinked_node(m[q], m2[q]);
            }
        }
    }
    tree::leaf_split(t, t2, p, n, lo, hi, end, all, mid);
    assert(all[mid].0 == sep);
    assert forall|k2: Seq<u8>| tree::in_range(lo, hi, k2) implies #[trigger] tree::split_find(
        t2,
        p,
        n,
        0,
        sep,
        k2,
    ) == if k2 == k {
        Some(())
    } else {
        tree::find(t, p, 0, k2)
    } by {
        assert(tree::split_find(t2, p, n, 0, all[mid].0, k2) == tree::item_find(all, k2));
        assert(tree::find(t, p, 0, k2) == tree::item_find(items, k2));
    }
    assert(rest_kept(m, m2, p, 0, end)) by {
        assert forall|q: u32| #[trigger]
            m.contains_key(q) && !tree::owns(t, p, 0, q) implies m2.contains_key(q) && (m2[q]
            == m[q] || (q == end && end != 0 && btree_writer::relinked(m[q], m2[q]))) by {
            assert(q != p);
        }
    }
}

/// Contents are to end early, and a page below `p` has some that do not.
pub open spec fn loose(m: Map<u32, Seq<u8>>, p: u32, h: nat, cap: int) -> bool {
    &&& cap < 4092
    &&& exists|q: u32| #[trigger]
        tree::owns(index_node::idx_view(m), p, h, q) && !page::trimmed(m[q])
}

/// The outcome of inserting a key below a page.
pub open spec fn idx_inserted(
    m: Map<u32, Seq<u8>>,
    m2: Map<u32, Seq<u8>>,
    p: u32,
    h: nat,
    lo: Option<Seq<u8>>,
    hi: Option<Seq<u8>>,
    end: u32,
    k: Seq<u8>,
    total: int,
    cap: int,
    depth: int,
    r: Result<IdxInsertResult>,
) -> bool {
    let t = index_node::idx_view(m);
    match r {
        Ok(IdxInsertResult::Fit) => grown(m, m2, p, h, lo, hi, end, k, ()),
        Ok(IdxInsertResult::Split { new_page, separator }) => {
            &&& parted(m, m2, p, new_page, h, lo, hi, end, separator@, k, ())
            &&& separator@.len() <= MAX_INDEX_KEY
        },
        Err(BoogyError::PageFull) => k.len() > MAX_INDEX_KEY || loose(m, p, h, cap),
        Err(BoogyError::Corruption(_)) => {
            ||| depth + h >= MAX_TREE_DEPTH
            ||| total + h + 1 > u32::MAX
        },
        Err(_) => false,
    }
}

/// A leaf took a key that it holds already: the key stands in it once more, beside
/// the first one, and no other page changed.
pub open spec fn doubled(m: Map<u32, Seq<u8>>, m2: Map<u32, Seq<u8>>, p: u32, k: Seq<u8>) -> bool {
    let rows = btree_node::cells(m[p]);
    &&& m2 == m.insert(p, m2[p])
    &&& index_node::idx_leaf(m2[p])
    &&& page::next_of(m2[p]) == page::next_of(m[p])
    &&& exists|pos: int|
        0 <= pos < rows.len() && index_node::entry_key(rows[pos]) == k && btree_node::cells(m2[p])
            == #[trigger] rows.insert(pos, index_node::entry(k))
}

/// A leaf that had no room took a key that it holds already: with the key once more,
/// its cells now lie in it and in a new leaf behind it.
pub open spec fn doubled_apart(
    m: Map<u32, Seq<u8>>,
    m2: Map<u32, Seq<u8>>,
    p: u32,
    n: u32,
    k: Seq<u8>,
) -> bool {
    let rows = btree_node::cells(m[p]);
    &&& !m.contains_key(n)
    &&& m2.contains_key(p) && m2.contains_key(n)
    &&& index_node::idx_leaf(m2[p]) && index_node::idx_leaf(m2[n])
    &&& page::next_of(m2[p]) == n
    &&& page::next_of(m2[n]) == page::next_of(m[p])
    &&& exists|pos: int|
        0 <= pos < rows.len() && index_node::entry_key(rows[pos]) == k && btree_node::cells(m2[p])
            + btree_node::cells(m2[n]) == #[trigger] rows.insert(pos, index_node::entry(k))
}

/// The leaf for a key has room for one cell more with it.
pub open spec fn leaf_has_room(m: Map<u32, Seq<u8>>, p: u32, h: nat, k: Seq<u8>, cap: int) -> bool {
    let leaf = tree::leaf_for(index_node::idx_view(m), p, h, k);
    btree_node::rows_fit(btree_node::cells(m[leaf]).insert(0, index_node::entry(k)), cap)
}

/// What holds of an insertion below a page whether or not the key is there: one that is
/// too long is refused with nothing changed, and one that is there already is stored
/// once more, in its leaf or, where that has no room, in that leaf and a new one.
pub open spec fn idx_repeated(
    m: Map<u32, Seq<u8>>,
    m2: Map<u32, Seq<u8>>,
    p: u32,
    h: nat,
    end: u32,
    k: Seq<u8>,
    total: int,
    cap: int,
    r: Result<IdxInsertResult>,
) -> bool {
    let t = index_node::idx_view(m);
    &&& r matches Ok(IdxInsertResult::Split { separator, .. }) ==> separator@.len() <= MAX_INDEX_KEY
    &&& k.len() > MAX_INDEX_KEY ==> r == Err::<IdxInsertResult, BoogyError>(BoogyError::PageFull)
        && m2 == m
    &&& k.len() <= MAX_INDEX_KEY && tree::find(t, p, h, k) is Some && leaf_has_room(m, p, h, k, cap)
        ==> {
        &&& r matches Ok(IdxInsertResult::Fit)
        &&& doubled(m, m2, tree::leaf_for(t, p, h, k), k)
    }
    &&& k.len() <= MAX_INDEX_KEY && tree::find(t, p, h, k) is Some && !leaf_has_room(m, p, h, k, cap)
        ==> match r {
        Ok(_) => {
            &&& doubled_apart(m, m2, tree::leaf_for(t, p, h, k), total as u32, k)
            &&& rest_kept(m, m2, p, h, end)
        },
        Err(BoogyError::PageFull) => loose(m, p, h, cap),
        Err(BoogyError::Corruption(_)) => total + h + 1 > u32::MAX,
        Err(_) => false,
    }
}

/// The cells of a leaf with a new one hold keys.
proof fn entries_insert(rows: Seq<Seq<u8>>, pos: int, k: Seq<u8>)
    requires
        index_node::entries_ok(rows),
        0 <= pos <= rows.len(),
        k.len() <= 65535,
    ensures
        index_node::entries_ok(rows.insert(pos, index_node::entry(k))),
{
    index_node::entry_holds(k);
    let new = rows.insert(pos, index_node::entry(k));
    assert forall|i: int| 0 <= i < new.len() implies index_node::entry_ok(#[trigger] new[i]) by {
        if i < pos {
            assert(new[i] == rows[i]);
        } else if i > pos {
            assert(new[i] == rows[i - 1]);
        }
    }
}

/// Splits a leaf that takes a new key at `pos`, before cell `mid`.
fn split_idx_leaf(
    guard: &mut WriteGuard,
    page_no: u32,
    page: &Page,
    pos: usize,
    key: &[u8],
    cell: &[u8],
    mid: usize,
) -> (r: Result<(u32, Vec<u8>)>)
    requires
        old(guard).wf(),
        old(guard).pages().contains_key(page_no),
        old(guard).pages()[page_no] == page.data@,
        index_node::idx_leaf(page.data@),
        pos <= page::count_of(page.data@),
        key@.len() <= 65535,
        cell@ == index_node::entry(key@),
        btree_node::parts_fit(
            btree_node::cells(page.data@).insert(pos as int, cell@),
            mid as int,
            old(guard).cap(),
        ),
    ensures
        r is Ok && file::tidy(old(guard).pages()) ==> file::tidy(final(guard).pages()),
        final(guard).wf(),
        old(guard).total() <= final(guard).total() <= old(guard).total() + 1,
        r is Ok ==> final(guard).total() == old(guard).total() + 1,
        final(guard).inner().contents() == old(guard).inner().contents(),
        file::grounded(old(guard).inner(), final(guard).inner()),
        file::trim_kept(*old(guard), *final(guard)),
        final(guard).inner().count() == old(guard).inner().count(),
        btree_writer::fresh(old(guard).pages(), final(guard).pages(), old(guard).total()),
        ({
            let m = old(guard).pages();
            let m2 = final(guard).pages();
            let next = page::next_of(page.data@);
            let rows = btree_node::cells(page.data@).insert(pos as int, cell@);
            (next != 0 ==> next != page_no && m.contains_key(next)) ==> {
                &&& r is Ok <==> old(guard).total() < u32::MAX
                &&& r matches Err(e) ==> e is Corruption
                &&& r matches Ok(x) ==> {
                    &&& x.0 == old(guard).total()
                    &&& x.1@ == index_node::entry_key(rows[mid as int])
                    &&& !m.contains_key(x.0)
                    &&& m2.contains_key(x.0)
                    &&& m2.contains_key(page_no)
                    &&& index_node::idx_leaf(m2[page_no])
                    &&& btree_node::cells(m2[page_no]) == rows.subrange(0, mid as int)
                    &&& page::next_of(m2[page_no]) == x.0
                    &&& index_node::idx_leaf(m2[x.0])
                    &&& btree_node::cells(m2[x.0]) == rows.subrange(
                        mid as int,
                        rows.len() as int,
                    )
                    &&& page::next_of(m2[x.0]) == next
                    &&& forall|q: u32| #[trigger]
                        m.contains_key(q) && q != page_no ==> m2.contains_key(q) && (m2[q] == m[q]
                            || (q == next && next != 0 && btree_writer::relinked(m[q], m2[q])))
                }
            }
        }),
        r matches Err(e) ==> e is Corruption || e is Io,
{
    let ghost rows = btree_node::cells(page.data@).insert(pos as int, cell@);
    let ghost m = guard.pages();
    proof {
        guard.pages_bounded();
        entries_insert(btree_node::cells(page.data@), pos as int, key@);
        index_node::entry_holds(key@);
    }
    let next_leaf: u32 = page.next_leaf();
    let prev_leaf: u32 = page.prev_leaf();
    let total: usize = page.num_rows() as usize + 1;
    let new_page_no: u32 = guard.allocate_page()?;
    let separator: Vec<u8> = if mid == pos {
        copy_slice(key)
    } else {
        let orig: usize = if mid < pos {
            mid
        } else {
            mid - 1
        };
        let k: &[u8] = decode_leaf_entry(page, orig);
        copy_slice(k)
    };
    assert(rows.subrange(0, mid as int) =~= rows.take(mid as int));
    assert(rows.subrange(mid as int, total as int) =~= rows.skip(mid as int));
    let mut left_page: Page = guard.write_page(page_no)?;
    write_leaf_range(&mut left_page, page, pos, cell, 0, mid);
    let ghost l0 = left_page.data@;
    left_page.set_next_leaf(new_page_no);
    left_page.set_prev_leaf(prev_leaf);
    left_page.update_checksum();
    let ghost left_data = left_page.data@;
    guard.put_page(page_no, left_page);
    let mut right_page: Page = Page::new_leaf();
    write_leaf_range(&mut right_page, page, pos, cell, mid, total);
    let ghost r0 = right_page.data@;
    right_page.set_prev_leaf(page_no);
    right_page.set_next_leaf(next_leaf);
    right_page.update_checksum();
    let ghost right_data = right_page.data@;
    guard.put_page(new_page_no, right_page);
    proof {
        btree_node::same_body(l0, left_data);
        btree_node::same_body(r0, right_data);
        page::trimmed_same(l0, left_data);
        page::trimmed_same(r0, right_data);
        file::tidy_page(old(guard).pages(), page_no);
        file::tidy_pair(
            old(guard).pages(),
            new_page_no,
            Seq::new(4096, |i: int| 0u8),
            page_no,
            left_data,
            right_data,
        );
        assert forall|i: int| 0 <= i < mid implies index_node::entry_ok(
            #[trigger] rows.subrange(0, mid as int)[i],
        ) by {
            assert(rows.subrange(0, mid as int)[i] == rows[i]);
        }
        assert forall|i: int| 0 <= i < total - mid implies index_node::entry_ok(
            #[trigger] rows.subrange(mid as int, total as int)[i],
        ) by {
            assert(rows.subrange(mid as int, total as int)[i] == rows[mid + i]);
        }
    }
    if next_leaf != 0 {
        relink(guard, next_leaf, new_page_no)?;
    }
    Ok((new_page_no, separator))
}

/// Puts a key into a leaf that has room for it.
fn place_key(guard: &mut WriteGuard, page_no: u32, page: &Page, pos: usize, key: &[u8], cell: &[u8]) -> (r:
    Result<()>)
    requires
        old(guard).wf(),
        old(guard).pages().contains_key(page_no),
        old(guard).pages()[page_no] == page.data@,
        index_node::idx_leaf(page.data@),
        pos <= page::count_of(page.data@),
        key@.len() <= 65535,
        cell@ == index_node::entry(key@),
        btree_node::rows_fit(
            btree_node::cells(page.data@).insert(pos as int, cell@),
            old(guard).cap(),
        ),
    ensures
        r is Ok && file::tidy(old(guard).pages()) ==> file::tidy(final(guard).pages()),
        final(guard).wf(),
        final(guard).total() == old(guard).total(),
        final(guard).inner().contents() == old(guard).inner().contents(),
        file::grounded(old(guard).inner(), final(guard).inner()),
        file::trim_kept(*old(guard), *final(guard)),
        final(guard).inner().count() == old(guard).inner().count(),
        btree_writer::fresh(old(guard).pages(), final(guard).pages(), old(guard).total()),
        r is Ok,
        ({
            let m2 = final(guard).pages();
            &&& m2 == old(guard).pages().insert(page_no, m2[page_no])
            &&& index_node::idx_leaf(m2[page_no])
            &&& btree_node::cells(m2[page_no]) == btree_node::cells(page.data@).insert(
                pos as int,
                cell@,
            )
            &&& page::next_of(m2[page_no]) == page::next_of(page.data@)
        }),
{
    proof {
        entries_insert(btree_node::cells(page.data@), pos as int, key@);
        index_node::entry_holds(key@);
    }
    let mut wp: Page = guard.write_page(page_no)?;
    write_leaf_with_insert(&mut wp, page, pos, cell);
    let ghost w0 = wp.data@;
    wp.update_checksum();
    proof {
        btree_node::sealed_leaf(w0, wp.data@);
        page::trimmed_same(w0, wp.data@);
        guard.pages_bounded();
        file::tidy_page(guard.pages(), page_no);
        file::tidy_put(guard.pages(), page_no, wp.data@);
    }
    guard.put_page(page_no, wp);
    Ok(())
}

/// Inserts a key into a leaf.
fn insert_into_idx_leaf(
    guard: &mut WriteGuard,
    page_no: u32,
    page: &Page,
    key: &[u8],
    Ghost(lo): Ghost<Option<Seq<u8>>>,
    Ghost(hi): Ghost<Option<Seq<u8>>>,
    Ghost(end): Ghost<u32>,
    Ghost(depth): Ghost<int>,
) -> (r: Result<IdxInsertResult>)
    requires
        old(guard).wf(),
        old(guard).pages().contains_key(page_no),
        old(guard).pages()[page_no] == page.data@,
        index_node::idx_leaf(page.data@),
        depth < MAX_TREE_DEPTH,
    ensures
        r is Ok && file::tidy(old(guard).pages()) ==> file::tidy(final(guard).pages()),
        final(guard).wf(),
        final(guard).total() >= old(guard).total(),
        final(guard).total() <= old(guard).total() + 1,
        final(guard).inner().contents() == old(guard).inner().contents(),
        file::grounded(old(guard).inner(), final(guard).inner()),
        file::trim_kept(*old(guard), *final(guard)),
        final(guard).inner().count() == old(guard).inner().count(),
        btree_writer::fresh(old(guard).pages(), final(guard).pages(), old(guard).total()),
        r matches Ok(IdxInsertResult::Split { .. }) ==> final(guard).total() > old(guard).total(),
        ({
            let m = old(guard).pages();
            let t = index_node::idx_view(m);
            ready(m, page_no, 0, lo, hi, end) && tree::in_range(lo, hi, key@) && tree::find(
                t,
                page_no,
                0,
                key@,
            ) is None ==> idx_inserted(
                m,
                final(guard).pages(),
                page_no,
                0,
                lo,
                hi,
                end,
                key@,
                old(guard).total(),
                old(guard).cap(),
                depth,
                r,
            )
        }),
        ({
            let m = old(guard).pages();
            ready(m, page_no, 0, lo, hi, end) && tree::in_range(lo, hi, key@) ==> idx_repeated(
                m,
                final(guard).pages(),
                page_no,
                0,
                end,
                key@,
                old(guard).total(),
                old(guard).cap(),
                r,
            )
        }),
{
    let ghost m = guard.pages();
    let ghost t = index_node::idx_view(m);
    let ghost ok = ready(m, page_no, 0, lo, hi, end) && tree::in_range(lo, hi, key@) && tree::find(
        t,
        page_no,
        0,
        key@,
    ) is None;
    let ghost there = ready(m, page_no, 0, lo, hi, end) && tree::in_range(lo, hi, key@);
    let ghost items = index_node::idx_items(page.data@);
    let ghost rows = btree_node::cells(page.data@);
    let n: usize = page.num_rows() as usize;
    let len: usize = key.len();
    let (pos, found): (usize, bool) = find_idx_insertion_point(page, key);
    proof {
        btree_node::leaf_bounds(page.data@);
        btree_node::leaf_total(page.data@);
        if there {
            tree::wf_leaf(t, page_no, lo, hi, end);
            tree::leaf_facts(t, page_no);
            assert(t[page_no] == index_node::idx_node_of(m[page_no]));
            assert(tree::items_ok(items, None, None));
            assert(tree::find(t, page_no, 0, key@) == tree::item_find(items, key@));
            assert(tree::leaf_for(t, page_no, 0, key@) == page_no);
            assert(tree::owns(t, page_no, 0, page_no));
        }
        if ok {
            assert(idx_place(items, key@, pos as int));
        }
    }
    if len > MAX_INDEX_KEY {
        return Err(BoogyError::PageFull);
    }
    let cell: Vec<u8> = encode_entry(key);
    let data_size: usize = page.free_space_offset() as usize - (PAGE_HEADER_SIZE + n * 2);
    proof {
        index_node::entry_holds(key@);
        btree_node::total_len_insert(rows, pos as int, cell@);
        btree_node::total_len_insert(rows, 0, cell@);
    }
    let cap: usize = guard.page_end();
    if PAGE_HEADER_SIZE + (n + 1) * 2 + data_size + cell.len() <= cap {
        place_key(guard, page_no, page, pos, key, cell.as_slice())?;
        proof {
            if ok {
                leaf_took(m, guard.pages(), page_no, lo, hi, end, pos as int, key@);
            }
            if there && found {
                assert(items[pos as int].0 == index_node::entry_key(rows[pos as int]));
                assert(btree_node::cells(guard.pages()[page_no]) == rows.insert(
                    pos as int,
                    index_node::entry(key@),
                ));
            }
        }
        return Ok(IdxInsertResult::Fit);
    }
    if n == 0 {
        proof {
            assert(rows =~= Seq::empty());
            assert(false);
        }
        return Err(BoogyError::PageFull);
    }
    let mid: usize = split_within(page, pos, cell.as_slice(), cap);
    if !fits_parted(page, pos, cell.as_slice(), mid, cap) {
        proof {
            if there {
                btree_writer::nowhere_parted(page.data@, pos as int, cell@, mid as int, cap as int);
                btree_node::trimmed_fits(page.data@);
                if cap == 4092 || page::trimmed(page.data@) {
                    room::room_beside(rows, pos as int, cell@, cap as int);
                }
                assert(tree::owns(t, page_no, 0, page_no));
            }
        }
        return Err(BoogyError::PageFull);
    }
    let (new_page, separator): (u32, Vec<u8>) = split_idx_leaf(
        guard,
        page_no,
        page,
        pos,
        key,
        cell.as_slice(),
        mid,
    )?;
    proof {
        if ok {
            leaf_parted(
                m,
                guard.pages(),
                page_no,
                new_page,
                lo,
                hi,
                end,
                pos as int,
                mid as int,
                key@,
            );
        }
        if there {
            let new = rows.insert(pos as int, cell@);
            if mid != pos {
                let j = if mid < pos {
                    mid as int
                } else {
                    mid - 1
                };
                assert(new[mid as int] == rows[j]);
                assert(rows[j].len() <= 2 + MAX_INDEX_KEY);
            }
            if found {
                let m2 = guard.pages();
                assert(items[pos as int].0 == index_node::entry_key(rows[pos as int]));
                assert(btree_node::cells(m2[page_no]) + btree_node::cells(m2[new_page])
                    =~= rows.insert(pos as int, index_node::entry(key@)));
                assert(doubled_apart(m, m2, page_no, new_page, key@));
                assert forall|q: u32| #[trigger]
                    m.contains_key(q) && !tree::owns(t, page_no, 0, q) implies m2.contains_key(q)
                    && (m2[q] == m[q] || (q == end && end != 0 && btree_writer::relinked(
                    m[q],
                    m2[q],
                ))) by {
                    assert(q != page_no);
                }
            }
        }
    }
    Ok(IdxInsertResult::Split { new_page, separator })
}

/// A branch with these children and keys was parted at key `mid`, which went up.
pub open spec fn branch_cut(
    m2: Map<u32, Seq<u8>>,
    p: u32,
    n: u32,
    c2: Seq<u32>,
    k2: Seq<Seq<u8>>,
    sep: Seq<u8>,
    mid: int,
) -> bool {
    &&& 0 < mid < k2.len() - 1
    &&& sep == k2[mid]
    &&& index_node::idx_node_of(m2[p]) == (Node::<Seq<u8>, ()>::Branch {
        children: c2.subrange(0, mid + 1),
        keys: k2.subrange(0, mid),
    })
    &&& index_node::idx_node_of(m2[n]) == (Node::<Seq<u8>, ()>::Branch {
        children: c2.subrange(mid + 1, c2.len() as int),
        keys: k2.subrange(mid + 1, k2.len() as int),
    })
}

/// A branch that was given another child and key was parted. See [`branch_cut`].
pub open spec fn branch_halved(
    m: Map<u32, Seq<u8>>,
    m2: Map<u32, Seq<u8>>,
    p: u32,
    n: u32,
    at: int,
    child: u32,
    key: Seq<u8>,
    up: Seq<u8>,
    mid: int,
) -> bool {
    branch_cut(
        m2,
        p,
        n,
        index_node::idx_children(m[p]).insert(at + 1, child),
        index_node::idx_keys(m[p]).insert(at, key),
        up,
        mid,
    )
}

/// What comes of giving a branch another child and key.
pub open spec fn branch_inserted(
    m: Map<u32, Seq<u8>>,
    m2: Map<u32, Seq<u8>>,
    p: u32,
    at: int,
    child: u32,
    key: Seq<u8>,
    total: int,
    r: Result<IdxInsertResult>,
) -> bool {
    match r {
        Ok(IdxInsertResult::Fit) => {
            &&& m2 == m.insert(p, m2[p])
            &&& index_node::idx_node_of(m2[p]) == (Node::<Seq<u8>, ()>::Branch {
                children: index_node::idx_children(m[p]).insert(at + 1, child),
                keys: index_node::idx_keys(m[p]).insert(at, key),
            })
        },
        Ok(IdxInsertResult::Split { new_page, separator }) => {
            &&& new_page == total
            &&& separator@.len() <= MAX_INDEX_KEY
            &&& m2 == m.insert(p, m2[p]).insert(new_page, m2[new_page])
            &&& exists|mid: int| #[trigger]
                branch_halved(m, m2, p, new_page, at, child, key, separator@, mid)
        },
        Err(e) => e is Corruption && total == u32::MAX,
    }
}

/// Adds a child to a branch, and splits it if it is full.
fn insert_into_idx_branch(
    guard: &mut WriteGuard,
    page_no: u32,
    child_idx: usize,
    separator: &[u8],
    new_child: u32,
) -> (r: Result<IdxInsertResult>)
    requires
        old(guard).wf(),
    ensures
        r is Ok && file::tidy(old(guard).pages()) ==> file::tidy(final(guard).pages()),
        final(guard).wf(),
        final(guard).total() >= old(guard).total(),
        final(guard).total() <= old(guard).total() + 1,
        final(guard).inner().contents() == old(guard).inner().contents(),
        file::grounded(old(guard).inner(), final(guard).inner()),
        file::trim_kept(*old(guard), *final(guard)),
        final(guard).inner().count() == old(guard).inner().count(),
        btree_writer::fresh(old(guard).pages(), final(guard).pages(), old(guard).total()),
        old(guard).pages().contains_key(page_no) && index_node::idx_branch_ok(
            old(guard).pages()[page_no],
        ) && child_idx <= page::count_of(old(guard).pages()[page_no]) && separator@.len()
            <= MAX_INDEX_KEY ==> branch_inserted(
            old(guard).pages(),
            final(guard).pages(),
            page_no,
            child_idx as int,
            new_child,
            separator@,
            old(guard).total(),
            r,
        ),
{
    proof {
        guard.pages_bounded();
    }
    let page: Page = guard.read_page_cloned(page_no)?;
    if !check_idx_branch(&page) {
        return Err(corruption("malformed branch page"));
    }
    let num_keys: usize = page.num_rows() as usize;
    if child_idx > num_keys {
        return Err(corruption("branch lost a child"));
    }
    let ghost keys0 = index_node::idx_keys(page.data@);
    proof {
        index_node::idx_keys_short(page.data@);
    }
    if separator.len() > MAX_INDEX_KEY {
        return Err(corruption("separator is too long"));
    }
    let (mut children, mut keys): (Vec<u32>, Vec<Vec<u8>>) = collect_idx_branch_flat(&page);
    let sep_copy: Vec<u8> = copy_slice(separator);
    let size: usize = branch_size(&page) + separator.len() + 6;
    keys.insert(child_idx, sep_copy);
    children.insert(child_idx + 1, new_child);
    let ghost k2 = keys0.insert(child_idx as int, separator@);
    let ghost c2 = children@;
    proof {
        assert(index_node::key_views(keys@) =~= k2);
        index_node::keys_size_insert(keys0, child_idx as int, separator@);
        assert forall|i: int| 0 <= i < keys@.len() implies (#[trigger] keys@[i])@.len()
            <= MAX_INDEX_KEY by {
            assert(index_node::key_views(keys@)[i] == k2[i]);
            if i < child_idx {
                assert(k2[i] == keys0[i]);
            } else if i > child_idx {
                assert(k2[i] == keys0[i - 1]);
            }
        }
    }
    if size <= IDX_BRANCH_END {
        let mut wp: Page = guard.write_page(page_no)?;
        rebuild_idx_branch_flat(&mut wp, children.as_slice(), keys.as_slice());
        let ghost w0 = wp.data@;
        wp.update_checksum();
        proof {
            index_node::idx_same_body(w0, wp.data@);
        page::trimmed_same(w0, wp.data@);
        index_node::idx_trimmed(w0);
            index_node::idx_kinds(wp.data@);
            file::tidy_page(guard.pages(), page_no);
            file::tidy_put(guard.pages(), page_no, wp.data@);
        }
        guard.put_page(page_no, wp);
        return Ok(IdxInsertResult::Fit);
    }
    let mid: usize = branch_split_point(&keys);
    let split_key: Vec<u8> = copy_slice(keys[mid].as_slice());
    let ghost a = keys@.subrange(0, mid as int);
    let ghost b = keys@.subrange(mid + 1, keys@.len() as int);
    proof {
        assert(index_node::key_views(a) =~= k2.subrange(0, mid as int));
        assert(k2.subrange(0, mid as int) =~= k2.take(mid as int));
        assert(index_node::key_views(b) =~= k2.subrange(mid + 1, k2.len() as int));
        assert(k2.subrange(mid + 1, k2.len() as int) =~= k2.skip(mid + 1));
        assert forall|i: int| 0 <= i < a.len() implies (#[trigger] a[i])@.len() <= MAX_INDEX_KEY by {
            assert(a[i] == keys@[i]);
        }
        assert forall|i: int| 0 <= i < b.len() implies (#[trigger] b[i])@.len() <= MAX_INDEX_KEY by {
            assert(b[i] == keys@[mid + 1 + i]);
        }
    }
    let mut left_page: Page = guard.write_page(page_no)?;
    rebuild_idx_branch_flat(&mut left_page, &children[0..mid + 1], &keys[0..mid]);
    let ghost l0 = left_page.data@;
    left_page.update_checksum();
    proof {
        index_node::idx_same_body(l0, left_page.data@);
        page::trimmed_same(l0, left_page.data@);
        index_node::idx_trimmed(l0);
        index_node::idx_kinds(left_page.data@);
    }
    guard.put_page(page_no, left_page);
    let new_page_no: u32 = guard.allocate_page()?;
    let mut new_page: Page = Page::new_branch();
    rebuild_idx_branch_flat(
        &mut new_page,
        &children[mid + 1..children.len()],
        &keys[mid + 1..keys.len()],
    );
    let ghost r0 = new_page.data@;
    new_page.update_checksum();
    proof {
        index_node::idx_same_body(r0, new_page.data@);
        page::trimmed_same(r0, new_page.data@);
        index_node::idx_trimmed(r0);
        index_node::idx_kinds(new_page.data@);
    }
    guard.put_page(new_page_no, new_page);
    proof {
        let m2 = guard.pages();
        file::tidy_page(old(guard).pages(), page_no);
        file::tidy_pair(
            old(guard).pages(),
            new_page_no,
            Seq::new(4096, |i: int| 0u8),
            page_no,
            left_page.data@,
            new_page.data@,
        );
        assert(m2 =~= old(guard).pages().insert(page_no, m2[page_no]).insert(
            new_page_no,
            m2[new_page_no],
        ));
        assert(index_node::key_views(keys@)[mid as int] == k2[mid as int]);
        assert(keys@[mid as int]@.len() <= MAX_INDEX_KEY);
        assert(c2 =~= index_node::idx_children(page.data@).insert(child_idx + 1, new_child));
        assert(branch_cut(m2, page_no, new_page_no, c2, k2, split_key@, mid as int));
        if old(guard).pages().contains_key(page_no) {
            assert(branch_halved(
                old(guard).pages(),
                m2,
                page_no,
                new_page_no,
                child_idx as int,
                new_child,
                separator@,
                split_key@,
                mid as int,
            ));
        }
    }
    let r: Result<IdxInsertResult> = Ok(
        IdxInsertResult::Split { new_page: new_page_no, separator: split_key },
    );
    proof {
        if old(guard).pages().contains_key(page_no) {
            halved_is_inserted(
                old(guard).pages(),
                guard.pages(),
                page_no,
                child_idx as int,
                new_child,
                separator@,
                old(guard).total(),
                r,
                mid as int,
            );
        }
    }
    r
}

/// A branch that was parted was given its child and key.
proof fn halved_is_inserted(
    m: Map<u32, Seq<u8>>,
    m2: Map<u32, Seq<u8>>,
    p: u32,
    at: int,
    child: u32,
    key: Seq<u8>,
    total: int,
    r: Result<IdxInsertResult>,
    mid: int,
)
    requires
        r matches Ok(IdxInsertResult::Split { new_page, separator }) && {
            &&& new_page == total
            &&& separator@.len() <= MAX_INDEX_KEY
            &&& m2 == m.insert(p, m2[p]).insert(new_page, m2[new_page])
            &&& branch_halved(m, m2, p, new_page, at, child, key, separator@, mid)
        },
    ensures
        branch_inserted(m, m2, p, at, child, key, total, r),
{
}

/// Where the entries of a branch end.
fn branch_size(page: &Page) -> (n: usize)
    requires
        index_node::idx_branch_ok(page.data@),
    ensures
        n == 20 + index_node::keys_size(index_node::idx_keys(page.data@)),
        n <= IDX_BRANCH_END,
{
    let (_, keys): (Vec<u32>, Vec<Vec<u8>>) = collect_idx_branch_flat(page);
    let ghost ks = index_node::idx_keys(page.data@);
    let mut n: usize = 20;
    let mut i: usize = 0;
    proof {
        index_node::idx_keys_short(page.data@);
        assert(ks.take(0).len() == 0);
    }
    while i < keys.len()
        invariant
            i <= keys@.len() == ks.len(),
            index_node::key_views(keys@) == ks,
            n == 20 + index_node::keys_size(ks.take(i as int)),
            20 + index_node::keys_size(ks) <= IDX_BRANCH_END,
        decreases keys@.len() - i,
    {
        proof {
            index_node::keys_size_step(ks, i as int);
            index_node::keys_size_parted(ks, i + 1);
            assert(index_node::key_views(keys@)[i as int] == ks[i as int]);
        }
        n = n + keys[i].len() + 6;
        i += 1;
    }
    assert(ks.take(ks.len() as int) =~= ks);
    n
}

/// While a leaf below a child is parted, the branch stays. See [`parent_kept`].
proof fn parent_stays(
    m: Map<u32, Seq<u8>>,
    m2: Map<u32, Seq<u8>>,
    p: u32,
    h: nat,
    h1: nat,
    lo: Option<Seq<u8>>,
    hi: Option<Seq<u8>>,
    end: u32,
    i: int,
)
    requires
        h == h1 + 1,
        ready(m, p, h, lo, hi, end),
        0 <= i < index_node::idx_view(m)[p]->children.len(),
        ({
            let t = index_node::idx_view(m);
            let c = t[p]->children;
            rest_kept(m, m2, c[i], h1, tree::kid_end(t, c, h1, i, end))
        }),
    ensures
        m2.contains_key(p),
        index_node::idx_branch_ok(m2[p]),
        page::count_of(m2[p]) + 1 == index_node::idx_view(m)[p]->children.len(),
{
    let t = index_node::idx_view(m);
    let c = t[p]->children;
    kid_ready(m, p, h, h1, lo, hi, end, i);
    tree::wf_branch(t, p, h, h1, lo, hi, end);
    assert(m.contains_key(p) && !tree::owns(t, c[i], h1, p));
    if m2[p] != m[p] {
        relinked_node(m[p], m2[p]);
    }
    assert(t[p] == index_node::idx_node_of(m[p]));
    assert(index_node::idx_keys(m2[p]) == t[p]->keys);
}

/// A leaf that was parted stays so while a branch above it is written.
proof fn apart_kept(
    m: Map<u32, Seq<u8>>,
    m2: Map<u32, Seq<u8>>,
    m3: Map<u32, Seq<u8>>,
    p: u32,
    h: nat,
    leaf: u32,
    total: int,
    total2: int,
    end: u32,
    k: Seq<u8>,
)
    requires
        0 <= total < total2 <= u32::MAX,
        doubled_apart(m, m2, leaf, total as u32, k),
        rest_kept(m, m2, p, h, end),
        leaf != p,
        m.contains_key(p),
        tree::owns(index_node::idx_view(m), p, h, p),
        forall|q: u32| #[trigger] m.contains_key(q) ==> q < total,
        m3 == m2.insert(p, m3[p]) || m3 == m2.insert(p, m3[p]).insert(
            total2 as u32,
            m3[total2 as u32],
        ),
        m.contains_key(leaf),
    ensures
        doubled_apart(m, m3, leaf, total as u32, k),
        rest_kept(m, m3, p, h, end),
{
    let n = total as u32;
    assert(m3[leaf] == m2[leaf] && m3[n] == m2[n]);
    let rows = btree_node::cells(m[leaf]);
    let pos = choose|pos: int|
        0 <= pos < rows.len() && index_node::entry_key(rows[pos]) == k && btree_node::cells(m2[leaf])
            + btree_node::cells(m2[n]) == #[trigger] rows.insert(pos, index_node::entry(k));
    assert(btree_node::cells(m3[leaf]) + btree_node::cells(m3[n]) == rows.insert(
        pos,
        index_node::entry(k),
    ));
    assert forall|q: u32| #[trigger]
        m.contains_key(q) && !tree::owns(index_node::idx_view(m), p, h, q) implies m3.contains_key(q)
        && (m3[q] == m[q] || (q == end && end != 0 && btree_writer::relinked(m[q], m3[q]))) by {
        assert(q != p && q < total2);
        assert(m2.contains_key(q));
    }
}

/// Inserts a key below a page.
fn insert_idx_recursive(
    guard: &mut WriteGuard,
    page_no: u32,
    key: &[u8],
    depth: usize,
    Ghost(h): Ghost<nat>,
    Ghost(lo): Ghost<Option<Seq<u8>>>,
    Ghost(hi): Ghost<Option<Seq<u8>>>,
    Ghost(end): Ghost<u32>,
) -> (r: Result<IdxInsertResult>)
    requires
        old(guard).wf(),
        depth <= MAX_TREE_DEPTH,
    ensures
        r is Ok && file::tidy(old(guard).pages()) ==> file::tidy(final(guard).pages()),
        final(guard).wf(),
        final(guard).total() >= old(guard).total(),
        final(guard).inner().contents() == old(guard).inner().contents(),
        file::grounded(old(guard).inner(), final(guard).inner()),
        file::trim_kept(*old(guard), *final(guard)),
        final(guard).inner().count() == old(guard).inner().count(),
        btree_writer::fresh(old(guard).pages(), final(guard).pages(), old(guard).total()),
        r matches Ok(IdxInsertResult::Split { .. }) ==> final(guard).total() > old(guard).total(),
        ({
            let m = old(guard).pages();
            let t = index_node::idx_view(m);
            ready(m, page_no, h, lo, hi, end) && tree::in_range(lo, hi, key@) && tree::find(
                t,
                page_no,
                h,
                key@,
            ) is None ==> idx_inserted(
                m,
                final(guard).pages(),
                page_no,
                h,
                lo,
                hi,
                end,
                key@,
                old(guard).total(),
                old(guard).cap(),
                depth as int,
                r,
            )
        }),
        ready(old(guard).pages(), page_no, h, lo, hi, end) && tree::in_range(lo, hi, key@)
            ==> final(guard).total() <= old(guard).total() + h + 1,
        ({
            let m = old(guard).pages();
            ready(m, page_no, h, lo, hi, end) && tree::in_range(lo, hi, key@) && depth + h
                < MAX_TREE_DEPTH ==> idx_repeated(
                m,
                final(guard).pages(),
                page_no,
                h,
                end,
                key@,
                old(guard).total(),
                old(guard).cap(),
                r,
            )
        }),
    decreases MAX_TREE_DEPTH - depth,
{
    let ghost m = guard.pages();
    let ghost t = index_node::idx_view(m);
    let ghost ok = ready(m, page_no, h, lo, hi, end) && tree::in_range(lo, hi, key@) && tree::find(
        t,
        page_no,
        h,
        key@,
    ) is None;
    let ghost there = ready(m, page_no, h, lo, hi, end) && tree::in_range(lo, hi, key@);
    let ghost total0 = guard.total();
    if depth >= MAX_TREE_DEPTH {
        return Err(corruption("index B+ tree depth exceeds maximum in insert_recursive"));
    }
    proof {
        guard.pages_bounded();
        if there {
            tree::wf_shape(t, page_no, h, lo, hi, end);
            index_node::idx_kinds(m[page_no]);
            assert(t[page_no] == index_node::idx_node_of(m[page_no]));
        }
    }
    let page: Page = guard.read_page_cloned(page_no)?;
    if page.is_leaf() {
        if !check_idx_leaf(&page) {
            return Err(corruption("malformed leaf page"));
        }
        return insert_into_idx_leaf(
            guard,
            page_no,
            &page,
            key,
            Ghost(lo),
            Ghost(hi),
            Ghost(end),
            Ghost(depth as int),
        );
    }
    if !check_idx_branch(&page) {
        return Err(corruption("malformed branch page"));
    }
    let (child_idx, child): (usize, u32) = find_idx_child(&page, key);
    let ghost i = child_idx as int;
    let ghost h1 = (h - 1) as nat;
    let ghost c = t[page_no]->children;
    let ghost ks = t[page_no]->keys;
    let ghost lo1 = tree::kid_lo(ks, lo, i);
    let ghost hi1 = tree::kid_hi(ks, hi, i);
    let ghost end1 = tree::kid_end(t, c, h1, i, end);
    proof {
        if there {
            tree::wf_branch(t, page_no, h, h1, lo, hi, end);
            kid_ready(m, page_no, h, h1, lo, hi, end, i);
            tree::route_in_kid(ks, key@, lo, hi);
            tree::branch_facts(t, page_no, h, h1);
            assert(tree::find(t, page_no, h, key@) == tree::find(t, c[i], h1, key@));
            assert(tree::leaf_for(t, page_no, h, key@) == tree::leaf_for(t, c[i], h1, key@));
        }
    }
    let below: Result<IdxInsertResult> = insert_idx_recursive(
        guard,
        child,
        key,
        depth + 1,
        Ghost(h1),
        Ghost(lo1),
        Ghost(hi1),
        Ghost(end1),
    );
    let ghost m2 = guard.pages();
    let ghost total2 = guard.total();
    let ghost leaf = tree::leaf_for(t, page_no, h, key@);
    let ghost twice = there && depth + h < MAX_TREE_DEPTH && key@.len() <= MAX_INDEX_KEY
        && tree::find(t, page_no, h, key@) is Some && !leaf_has_room(
        m,
        page_no,
        h,
        key@,
        guard.cap(),
    );
    proof {
        if there {
            tree::leaf_for_items(t, page_no, h, lo, hi, end, key@);
            assert(leaf_has_room(m, page_no, h, key@, guard.cap()) == leaf_has_room(
                m,
                c[i],
                h1,
                key@,
                guard.cap(),
            ));
            if twice && below is Ok {
                rest_kept_up(m, m2, page_no, h, h1, lo, hi, end, i);
            }
            if loose(m, c[i], h1, guard.cap()) {
                let q = choose|q: u32| #[trigger]
                    tree::owns(t, c[i], h1, q) && !page::trimmed(m[q]);
                assert(tree::owns(t, page_no, h, q));
            }
        }
    }
    match below {
        Err(e) => Err(e),
        Ok(IdxInsertResult::Fit) => {
            proof {
                if ok {
                    branch_grew(m, m2, page_no, h, h1, lo, hi, end, i, key@, ());
                }
            }
            Ok(IdxInsertResult::Fit)
        },
        Ok(IdxInsertResult::Split { new_page, separator }) => {
            proof {
                guard.pages_bounded();
                if ok {
                    parent_kept(
                        m,
                        m2,
                        page_no,
                        h,
                        h1,
                        lo,
                        hi,
                        end,
                        i,
                        new_page,
                        separator@,
                        key@,
                        (),
                    );
                }
            }
            proof {
                if twice {
                    parent_stays(m, m2, page_no, h, h1, lo, hi, end, i);
                }
            }
            let res: IdxInsertResult = insert_into_idx_branch(
                guard,
                page_no,
                child_idx,
                separator.as_slice(),
                new_page,
            )?;
            proof {
                if twice {
                    apart_kept(m, m2, guard.pages(), page_no, h, leaf, total0, total2, end, key@);
                }
                if ok {
                    let m3 = guard.pages();
                    match res {
                        IdxInsertResult::Fit => {
                            branch_took(
                                m,
                                m2,
                                m3,
                                page_no,
                                h,
                                h1,
                                lo,
                                hi,
                                end,
                                i,
                                new_page,
                                separator@,
                                key@,
                                (),
                            );
                        },
                        IdxInsertResult::Split { new_page: n2, .. } => {
                            let mid = choose|mid: int| #[trigger]
                                branch_halved(
                                    m2,
                                    m3,
                                    page_no,
                                    n2,
                                    i,
                                    new_page,
                                    separator@,
                                    res->separator@,
                                    mid,
                                );
                            branch_parted(
                                m,
                                m2,
                                m3,
                                page_no,
                                n2,
                                h,
                                h1,
                                lo,
                                hi,
                                end,
                                i,
                                new_page,
                                separator@,
                                mid,
                                key@,
                                (),
                            );
                        },
                    }
                }
            }
            Ok(res)
        },
    }
}

// ---------------------------------------------------------------------------
// The writer
// ---------------------------------------------------------------------------

/// The outcome of [`IndexTreeWriter::insert`] for a key that is not there yet.
pub open spec fn idx_put_outcome(
    m: Map<u32, Seq<u8>>,
    m2: Map<u32, Seq<u8>>,
    root: u32,
    root2: u32,
    k: Seq<u8>,
    total: int,
    cap: int,
    r: Result<u32>,
) -> bool {
    let t = index_node::idx_view(m);
    let h = tree::height(t, root);
    match r {
        Ok(p) => {
            &&& p == root2
            &&& tree_put(m, m2, root, root2, k, Some(()))
            &&& tree::height(index_node::idx_view(m2), root2) <= h + 1
        },
        Err(BoogyError::PageFull) => {
            &&& root2 == root
            &&& k.len() > MAX_INDEX_KEY || loose(m, root, h, cap)
        },
        Err(BoogyError::Corruption(_)) => {
            &&& root2 == root
            &&& h >= MAX_TREE_DEPTH || total + h + 2 > u32::MAX
        },
        Err(_) => false,
    }
}

/// A tree with one key less.
proof fn key_removed(
    m: Map<u32, Seq<u8>>,
    m2: Map<u32, Seq<u8>>,
    root: u32,
    p: u32,
    pos: int,
    k: Seq<u8>,
)
    requires
        is_index(m, root),
        p == tree::leaf_for(
            index_node::idx_view(m),
            root,
            tree::height(index_node::idx_view(m), root),
            k,
        ),
        index_node::idx_leaf(m[p]),
        0 <= pos < btree_node::cells(m[p]).len(),
        index_node::idx_items(m[p])[pos].0 == k,
        leaf_set(m, m2, p, btree_node::cells(m[p]).remove(pos)),
    ensures
        tree_put(m, m2, root, root, k, None),
        tree::height(index_node::idx_view(m2), root) == tree::height(
            index_node::idx_view(m),
            root,
        ),
{
    let t = index_node::idx_view(m);
    let t2 = index_node::idx_view(m2);
    let h = tree::height(t, root);
    let cells2 = btree_node::cells(m[p]).remove(pos);
    let items = index_node::idx_items(m[p]);
    assert(tree::is_root(t, root, h));
    assert(tree::in_range(None::<Seq<u8>>, None, k));
    let j = tree::leaf_for_place(t, root, h, None, None, 0, k);
    tree::leaves_chained(t, root, h, None, None, 0);
    let ls = tree::leaves(t, root, h);
    assert(tree::linked(t, ls, 0, j));
    assert(tree::owns(t, root, h, ls[j]));
    assert(index_node::key_items(cells2) =~= items.remove(pos));
    assert(t[ls[j]] is Leaf);
    assert(t[p] == index_node::idx_node_of(m[p]));
    assert forall|i: int| 0 <= i < cells2.len() implies (#[trigger] cells2[i]).len() == 2
        + bytes::get_u16(cells2[i], 0) by {
        let x = if i < pos {
            i
        } else {
            i + 1
        };
        assert(cells2[i] == btree_node::cells(m[p])[x]);
    }
    assert forall|lo: Option<Seq<u8>>, hi: Option<Seq<u8>>| #[trigger]
        tree::items_ok(items, lo, hi) implies tree::items_ok(
        index_node::key_items(cells2),
        lo,
        hi,
    ) by {
        tree::items_remove(items, lo, hi, pos);
    }
    leaf_set_node(m, m2, p, cells2);
    tree::all_rewritten(t, t2, root, j);
    let a = tree::leaf_rows(t, ls.take(j));
    let b = tree::leaf_rows(t, ls.skip(j + 1));
    let all = all_keys(m, root);
    let at = a.len() + pos;
    assert(all_keys(m2, root) =~= all.remove(at));
    assert(all[at] == items[pos]);
    tree::all_sorted(t, root);
    tree::all_sorted(t2, root);
    tree::items_remove(all, None, None, at);
    assert forall|k2: Seq<u8>| #[trigger] key_at(m2, root, k2) == if k2 == k {
        None
    } else {
        key_at(m, root, k2)
    } by {
        assert(tree::get(t2, root, k2) == tree::item_find(all.remove(at), k2));
        assert(tree::get(t, root, k2) == tree::item_find(all, k2));
    }
    assert forall|q: u32| #[trigger] tree::has(t2, root, q) implies tree::has(t, root, q)
        || !m.contains_key(q) by {
        assert(tree::has(t2, root, q) == tree::has(t, root, q));
    }
    assert forall|q: u32| #[trigger]
        m.contains_key(q) && !tree::has(t, root, q) implies m2.contains_key(q) && m2[q] == m[q] by {
        assert(q != p);
    }
}

/// The outcome of [`IndexTreeWriter::delete`].
pub open spec fn idx_delete_outcome(
    m: Map<u32, Seq<u8>>,
    m2: Map<u32, Seq<u8>>,
    root: u32,
    k: Seq<u8>,
    r: Result<bool>,
) -> bool {
    match r {
        Ok(true) => {
            &&& walkable_index(m, root)
            &&& key_at(m, root, k) is Some
            &&& tree_put(m, m2, root, root, k, None)
            &&& tree::height(index_node::idx_view(m2), root) == tree::height(
                index_node::idx_view(m),
                root,
            )
        },
        Ok(false) => {
            &&& walkable_index(m, root)
            &&& key_at(m, root, k) is None
            &&& m2 == m
        },
        Err(_) => !walkable_index(m, root) && m2 == m,
    }
}

/// Finds the leaf that would hold a key.
fn find_leaf_for_key<S: PageSource>(source: &S, root: u32, key: &[u8]) -> (r: Result<(u32, Page)>)
    ensures
        walkable_index(source.visible(), root) ==> {
            let t = index_node::idx_view(source.visible());
            &&& r matches Ok(lp)
            &&& lp.0 == tree::leaf_for(t, root, tree::height(t, root), key@)
            &&& tree::has(t, root, lp.0)
            &&& tree::items_ok(index_node::idx_items(lp.1.data@), None, None)
            &&& key_at(source.visible(), root, key@) == tree::item_find(
                index_node::idx_items(lp.1.data@),
                key@,
            )
        },
        r matches Ok(lp) ==> index_node::idx_leaf(lp.1.data@) && source.visible().contains_key(lp.0)
            && lp.1.data@ == source.visible()[lp.0],
        is_index(source.visible(), root) && !walkable_index(source.visible(), root) ==> r is Err,
        r matches Err(e) ==> e is Corruption || e is Io,
{
    let ghost m = source.visible();
    let ghost t = index_node::idx_view(m);
    let ghost top = tree::height(t, root);
    let ghost ok = is_index(m, root);
    let ghost mut h: nat = top;
    let ghost mut lo: Option<Seq<u8>> = None;
    let ghost mut hi: Option<Seq<u8>> = None;
    let ghost mut end: u32 = 0;
    let mut page_no: u32 = root;
    let mut depth: usize = 0;
    proof {
        if ok {
            assert(tree::is_root(t, root, top));
            if top > 0 {
                tree::wf_branch(t, root, top, (top - 1) as nat, None, None, 0);
            } else {
                tree::leaf_facts(t, root);
            }
        }
    }
    while depth < MAX_TREE_DEPTH
        invariant
            depth <= 64,
            m == source.visible(),
            t == index_node::idx_view(m),
            ok == is_index(m, root),
            top == tree::height(t, root),
            ok ==> {
                &&& tree::wf(t, page_no, h, lo, hi, end)
                &&& tree::in_range(lo, hi, key@)
                &&& tree::find(t, root, top, key@) == tree::find(t, page_no, h, key@)
                &&& tree::leaf_for(t, root, top, key@) == tree::leaf_for(t, page_no, h, key@)
                &&& tree::owns(t, root, top, page_no)
                &&& forall|q: u32| #[trigger]
                    tree::owns(t, page_no, h, q) ==> tree::owns(t, root, top, q)
                &&& depth + h == top
            },
        decreases 64 - depth,
    {
        proof {
            if ok {
                tree::wf_shape(t, page_no, h, lo, hi, end);
            }
        }
        let page: Page = source.fetch(page_no)?;
        proof {
            index_node::idx_kinds(page.data@);
            assert(ok ==> t[page_no] == index_node::idx_node_of(page.data@));
        }
        if page.is_leaf() {
            if !check_idx_leaf(&page) {
                return Err(corruption("malformed leaf page"));
            }
            proof {
                if ok {
                    tree::wf_leaf(t, page_no, lo, hi, end);
                    tree::leaf_facts(t, page_no);
                    let items = index_node::idx_items(page.data@);
                    assert(tree::items_ok(items, None, None));
                }
            }
            return Ok((page_no, page));
        }
        if !check_idx_branch(&page) {
            return Err(corruption("malformed branch page"));
        }
        let (i, child): (usize, u32) = find_idx_child(&page, key);
        proof {
            if ok {
                let h1 = (h - 1) as nat;
                tree::wf_branch(t, page_no, h, h1, lo, hi, end);
                tree::branch_facts(t, page_no, h, h1);
                let c = t[page_no]->children;
                let k = t[page_no]->keys;
                tree::route_in_kid(k, key@, lo, hi);
                assert(tree::kid_wf(t, c, k, h1, lo, hi, end, i as int));
                assert(tree::find(t, page_no, h, key@) == tree::find(t, c[i as int], h1, key@));
                let lo1 = tree::kid_lo(k, lo, i as int);
                let hi1 = tree::kid_hi(k, hi, i as int);
                let end1 = tree::kid_end(t, c, h1, i as int, end);
                if h1 > 0 {
                    tree::wf_branch(t, child, h1, (h1 - 1) as nat, lo1, hi1, end1);
                } else {
                    tree::leaf_facts(t, child);
                }
                assert(tree::owns(t, c[i as int], h1, child));
                assert forall|q: u32| #[trigger] tree::owns(t, child, h1, q) implies tree::owns(
                    t,
                    root,
                    top,
                    q,
                ) by {
                    assert(tree::owns(t, c[i as int], h1, q));
                    assert(tree::owns(t, page_no, h, q));
                }
                h = h1;
                lo = lo1;
                hi = hi1;
                end = end1;
            }
        }
        page_no = child;
        depth += 1;
    }
    Err(corruption("index B+ tree depth exceeds maximum in find_leaf_for_key"))
}

/// Write access to an index tree, through the guard that the methods are given.
pub struct IndexTreeWriter {
    root: u32,
}

impl IndexTreeWriter {
    /// The root of the tree.
    pub closed spec fn root_no(&self) -> u32 {
        self.root
    }

    pub fn new(root: u32) -> (w: IndexTreeWriter)
        ensures
            w.root_no() == root,
    {
        IndexTreeWriter { root }
    }

    pub fn root_page(&self) -> (p: u32)
        ensures
            p == self.root_no(),
    {
        self.root
    }

    /// Creates an empty tree.
    pub fn create(guard: &mut WriteGuard) -> (r: Result<u32>)
        requires
            old(guard).wf(),
        ensures
            r is Ok && file::tidy(old(guard).pages()) ==> file::tidy(final(guard).pages()),
            final(guard).wf(),
            final(guard).inner().contents() == old(guard).inner().contents(),
            file::grounded(old(guard).inner(), final(guard).inner()),
            file::trim_kept(*old(guard), *final(guard)),
            final(guard).inner().count() == old(guard).inner().count(),
            r is Ok <==> old(guard).total() < u32::MAX,
            r matches Ok(p) ==> {
                let m2 = final(guard).pages();
                let t2 = index_node::idx_view(m2);
                &&& p == old(guard).total()
                &&& final(guard).total() == old(guard).total() + 1
                &&& m2 == old(guard).pages().insert(p, m2[p])
                &&& is_index(m2, p)
                &&& tree::height(t2, p) == 0
                &&& all_keys(m2, p).len() == 0
                &&& forall|k: Seq<u8>| (#[trigger] key_at(m2, p, k)) is None
                &&& forall|q: u32| #[trigger] tree::has(t2, p, q) <==> q == p
            },
            r matches Err(e) ==> e is Corruption && *final(guard) == *old(guard),
    {
        proof {
            guard.pages_bounded();
        }
        let page_no: u32 = guard.allocate_page()?;
        let page: Page = Page::new_leaf();
        let ghost data = page.data@;
        guard.put_page(page_no, page);
        proof {
            let m2 = guard.pages();
            let t2 = index_node::idx_view(m2);
            assert(m2 =~= old(guard).pages().insert(page_no, data));
            file::tidy_put(old(guard).pages(), page_no, data);
            index_node::empty_idx_leaf(data);
            assert(t2[page_no] == index_node::idx_node_of(data));
            tree::wf_leaf(t2, page_no, None::<Seq<u8>>, None, 0);
            tree::leaf_facts(t2, page_no);
            assert(tree::is_root(t2, page_no, 0));
            tree::height_is(t2, page_no, 0);
            assert forall|k: Seq<u8>| (#[trigger] key_at(m2, page_no, k)) is None by {
                tree::item_find_none::<Seq<u8>, ()>(Seq::empty(), k);
                assert(tree::find(t2, page_no, 0, k) == tree::item_find(t2[page_no]->items, k));
            }
        }
        Ok(page_no)
    }

    /// Inserts a key. Returns the root, which may be a new one. A key of more than
    /// `MAX_INDEX_KEY` bytes is refused. A key that is there already is stored once
    /// more.
    pub fn insert(&mut self, guard: &mut WriteGuard, key: &[u8]) -> (r: Result<u32>)
        requires
            old(guard).wf(),
        ensures
            r is Ok && file::tidy(old(guard).pages()) ==> file::tidy(final(guard).pages()),
            final(guard).wf(),
            final(guard).total() >= old(guard).total(),
            final(guard).inner().contents() == old(guard).inner().contents(),
            file::grounded(old(guard).inner(), final(guard).inner()),
            file::trim_kept(*old(guard), *final(guard)),
            final(guard).inner().count() == old(guard).inner().count(),
            btree_writer::fresh(old(guard).pages(), final(guard).pages(), old(guard).total()),
            r matches Ok(p) ==> p == final(self).root_no(),
            r is Err ==> final(self).root_no() == old(self).root_no(),
            ({
                let m = old(guard).pages();
                let root = old(self).root_no();
                is_index(m, root) && key_at(m, root, key@) is None ==> idx_put_outcome(
                    m,
                    final(guard).pages(),
                    root,
                    final(self).root_no(),
                    key@,
                    old(guard).total(),
                    old(guard).cap(),
                    r,
                ) && final(guard).total() <= old(guard).total() + tree::height(
                    index_node::idx_view(m),
                    root,
                ) + 2
            }),
            ({
                let m = old(guard).pages();
                let m2 = final(guard).pages();
                let root = old(self).root_no();
                let t = index_node::idx_view(m);
                let h = tree::height(t, root);
                is_index(m, root) && h < MAX_TREE_DEPTH ==> {
                    &&& key@.len() > MAX_INDEX_KEY ==> r == Err::<u32, BoogyError>(
                        BoogyError::PageFull,
                    ) && m2 == m
                    &&& key@.len() <= MAX_INDEX_KEY && key_at(m, root, key@) is Some
                        && leaf_has_room(m, root, h, key@, old(guard).cap()) ==> {
                        &&& r == Ok::<u32, BoogyError>(root)
                        &&& doubled(m, m2, tree::leaf_for(t, root, h, key@), key@)
                    }
                    &&& key@.len() <= MAX_INDEX_KEY && key_at(m, root, key@) is Some
                        && !leaf_has_room(m, root, h, key@, old(guard).cap()) ==> match r {
                        Ok(_) => {
                            let leaf = tree::leaf_for(t, root, h, key@);
                            &&& doubled_apart(m, m2, leaf, old(guard).total() as u32, key@)
                            &&& rest_kept(m, m2, root, h, 0)
                        },
                        Err(BoogyError::PageFull) => loose(m, root, h, old(guard).cap()),
                        Err(BoogyError::Corruption(_)) => old(guard).total() + h + 2 > u32::MAX,
                        Err(_) => false,
                    }
                }
            }),
    {
        let ghost m = guard.pages();
        let ghost t = index_node::idx_view(m);
        let ghost root = self.root;
        let ghost total = guard.total();
        let ghost h = tree::height(t, root);
        let ghost ok = is_index(m, root) && key_at(m, root, key@) is None;
        proof {
            guard.pages_bounded();
            if is_index(m, root) {
                assert(tree::is_root(t, root, h));
                tree::wf_shape(t, root, h, None, None, 0);
                assert(m.contains_key(root));
                assert(tree::in_range(None::<Seq<u8>>, None, key@));
                assert(ready(m, root, h, None, None, 0));
            }
        }
        let res: Result<IdxInsertResult> = insert_idx_recursive(
            guard,
            self.root,
            key,
            0,
            Ghost(h),
            Ghost(None),
            Ghost(None),
            Ghost(0),
        );
        let ghost m2 = guard.pages();
        match res {
            Err(e) => Err(e),
            Ok(IdxInsertResult::Fit) => {
                proof {
                    if ok {
                        reveal(grown);
                        root_stays(m, m2, root, h, key@, Some(()), total);
                    }
                }
                Ok(self.root)
            },
            Ok(IdxInsertResult::Split { new_page, separator }) => {
                proof {
                    guard.pages_bounded();
                }
                if separator.len() > MAX_INDEX_KEY {
                    return Err(corruption("separator is too long"));
                }
                let new_root: u32 = guard.allocate_page()?;
                let mut root_page: Page = Page::new_branch();
                let mut children: Vec<u32> = Vec::new();
                children.push(self.root);
                children.push(new_page);
                let mut keys: Vec<Vec<u8>> = Vec::new();
                let ghost sep = separator@;
                keys.push(separator);
                proof {
                    let ks = index_node::key_views(keys@);
                    assert(ks =~= seq![sep]);
                    assert(ks.drop_last() =~= Seq::empty());
                    assert(index_node::keys_size(ks.drop_last()) == 0);
                }
                rebuild_idx_branch_flat(&mut root_page, children.as_slice(), keys.as_slice());
                let ghost p0 = root_page.data@;
                root_page.update_checksum();
                let ghost data = root_page.data@;
                guard.put_page(new_root, root_page);
                proof {
                    let m3 = guard.pages();
                    assert(m3 =~= m2.insert(new_root, data));
                    index_node::idx_same_body(p0, data);
                    page::trimmed_same(p0, data);
                    index_node::idx_trimmed(p0);
                    index_node::idx_kinds(data);
                    file::tidy_put(m2, new_root, data);
                    if ok {
                        assert(children@ =~= seq![self.root, new_page]);
                        assert(index_node::key_views(keys@) =~= seq![sep]);
                        root_replaced(
                            m,
                            m2,
                            m3,
                            root,
                            new_page,
                            new_root,
                            h,
                            sep,
                            key@,
                            (),
                            total,
                        );
                    }
                }
                self.root = new_root;
                Ok(self.root)
            },
        }
    }

    /// Deletes a key. Returns whether it was there.
    pub fn delete(&self, guard: &mut WriteGuard, key: &[u8]) -> (r: Result<bool>)
        requires
            old(guard).wf(),
        ensures
            r is Ok && file::tidy(old(guard).pages()) ==> file::tidy(final(guard).pages()),
            final(guard).wf(),
            final(guard).total() == old(guard).total(),
            final(guard).inner().contents() == old(guard).inner().contents(),
            file::grounded(old(guard).inner(), final(guard).inner()),
            file::trim_kept(*old(guard), *final(guard)),
            final(guard).inner().count() == old(guard).inner().count(),
            btree_writer::fresh(old(guard).pages(), final(guard).pages(), old(guard).total()),
            is_index(old(guard).pages(), self.root_no()) ==> idx_delete_outcome(
                old(guard).pages(),
                final(guard).pages(),
                self.root_no(),
                key@,
                r,
            ),
            r matches Err(e) ==> e is Corruption || e is Io,
    {
        let ghost m = guard.pages();
        let ghost root = self.root;
        let (page_no, page): (u32, Page) = find_leaf_for_key(guard, self.root, key)?;
        let (pos, found): (usize, bool) = find_idx_insertion_point(&page, key);
        if !found {
            return Ok(false);
        }
        let next_leaf: u32 = page.next_leaf();
        let prev_leaf: u32 = page.prev_leaf();
        let mut wp: Page = guard.write_page(page_no)?;
        write_leaf_without(&mut wp, &page, pos);
        let ghost w0 = wp.data@;
        wp.set_next_leaf(next_leaf);
        wp.set_prev_leaf(prev_leaf);
        wp.update_checksum();
        proof {
            btree_node::same_body(w0, wp.data@);
            page::trimmed_same(w0, wp.data@);
            guard.pages_bounded();
            file::tidy_page(guard.pages(), page_no);
            file::tidy_put(guard.pages(), page_no, wp.data@);
            let rows = btree_node::cells(page.data@);
            let left = rows.remove(pos as int);
            assert forall|i: int| 0 <= i < left.len() implies index_node::entry_ok(
                #[trigger] left[i],
            ) by {
                let j = if i < pos {
                    i
                } else {
                    i + 1
                };
                assert(left[i] == rows[j]);
            }
        }
        guard.put_page(page_no, wp);
        proof {
            if is_index(m, root) {
                key_removed(m, guard.pages(), root, page_no, pos as int, key@);
            }
        }
        Ok(true)
    }
}

// ---------------------------------------------------------------------------
// Reading
// ---------------------------------------------------------------------------

/// Selects the keys with a prefix.
pub open spec fn prefix_fn(prefix: Seq<u8>) -> spec_fn((Seq<u8>, ())) -> bool {
    |it: (Seq<u8>, ())| prefix.is_prefix_of(it.0)
}

/// The keys of items.
pub open spec fn names(items: Seq<(Seq<u8>, ())>) -> Seq<Seq<u8>> {
    items.map_values(|it: (Seq<u8>, ())| it.0)
}

/// The keys of a tree that begin with `prefix`, in ascending order.
pub open spec fn keys_with(m: Map<u32, Seq<u8>>, root: u32, prefix: Seq<u8>) -> Seq<Seq<u8>> {
    names(all_keys(m, root).filter(prefix_fn(prefix)))
}

/// What lies between two keys with a prefix has it too.
proof fn prefix_between(p: Seq<u8>, a: Seq<u8>, b: Seq<u8>, c: Seq<u8>)
    requires
        p.is_prefix_of(a),
        p.is_prefix_of(c),
        index_node::key_before(a, b),
        index_node::key_before(b, c),
    ensures
        p.is_prefix_of(b),
{
    reveal(index_node::key_before);
    let i = choose|i: int| bytes::lex_at(a, b, i);
    let j = choose|j: int| bytes::lex_at(b, c, j);
    assert(forall|x: int| 0 <= x < p.len() ==> p[x] == a[x]) by {
        assert(p =~= a.subrange(0, p.len() as int));
    }
    assert(forall|x: int| 0 <= x < p.len() ==> p[x] == c[x]) by {
        assert(p =~= c.subrange(0, p.len() as int));
    }
    if i < p.len() {
        if j < i {
            assert(b[j] == a[j]);
        } else if j > i {
            assert(b[i] == c[i]);
        }
        assert(false);
    }
    assert(p =~= b.subrange(0, p.len() as int));
}

/// What sorts before a prefix does not begin with it.
proof fn before_prefix(p: Seq<u8>, a: Seq<u8>)
    requires
        index_node::key_before(a, p),
    ensures
        !p.is_prefix_of(a),
{
    reveal(index_node::key_before);
    let i = choose|i: int| bytes::lex_at(a, p, i);
    if p.is_prefix_of(a) {
        assert(p =~= a.subrange(0, p.len() as int));
        assert(a.subrange(0, p.len() as int)[i] == a[i]);
    }
}

/// Selecting what stands in one place.
proof fn filter_range<A>(s: Seq<A>, pred: spec_fn(A) -> bool, from: int, to: int)
    requires
        0 <= from <= to <= s.len(),
        forall|i: int| 0 <= i < s.len() ==> (pred(#[trigger] s[i]) <==> from <= i < to),
    ensures
        s.filter(pred) == s.subrange(from, to),
    decreases s.len(),
{
    if s.len() == 0 {
        btree::filter_none(s, pred);
        assert(s.subrange(from, to) =~= Seq::empty());
    } else {
        let d = s.drop_last();
        let x = s.last();
        assert(d.push(x) =~= s);
        btree::filter_push(d, x, pred);
        assert(pred(s[s.len() - 1]) <==> to == s.len() && from < to);
        assert forall|i: int| 0 <= i < d.len() implies #[trigger] d[i] == s[i] by {}
        if from <= d.len() && to <= d.len() {
            filter_range(d, pred, from, to);
            assert(d.subrange(from, to) =~= s.subrange(from, to));
        } else if from < to {
            filter_range(d, pred, from, to - 1);
            assert(d.subrange(from, to - 1).push(x) =~= s.subrange(from, to));
        } else {
            assert(from == s.len());
            filter_range(d, pred, 0, 0);
            assert(d.subrange(0, 0) =~= s.subrange(from, to));
        }
    }
}

/// The entries of a leaf that begin with `prefix`: from the first to the second
/// index. The third value says that a key behind them was seen. `found` says that
/// a key with the prefix came before, in another leaf; `prev` is that key.
fn match_range(page: &Page, prefix: &[u8], found: bool, Ghost(prev): Ghost<Seq<u8>>) -> (r: (
    usize,
    usize,
    bool,
))
    requires
        index_node::idx_leaf(page.data@),
    ensures
        r.0 <= r.1 <= page::count_of(page.data@),
        ({
            let items = index_node::idx_items(page.data@);
            tree::items_ok(items, None, None) && (found ==> prefix@.is_prefix_of(prev) && forall|i: int|
                0 <= i < items.len() ==> prev.before((#[trigger] items[i]).0)) ==> {
                &&& items.filter(prefix_fn(prefix@)) == items.subrange(r.0 as int, r.1 as int)
                &&& forall|i: int|
                    r.0 <= i < r.1 ==> prefix@.is_prefix_of((#[trigger] items[i]).0)
                &&& r.2 ==> (found || r.0 < r.1) && r.1 < items.len() && !prefix@.is_prefix_of(
                    items[r.1 as int].0,
                )
            }
        }),
{
    let ghost items = index_node::idx_items(page.data@);
    let ghost pred = prefix_fn(prefix@);
    let ghost ok = tree::items_ok(items, None, None) && (found ==> prefix@.is_prefix_of(prev)
        && forall|i: int| 0 <= i < items.len() ==> prev.before((#[trigger] items[i]).0));
    let n: usize = page.num_rows() as usize;
    let mut from: usize = 0;
    let mut started: bool = false;
    let mut i: usize = 0;
    while i < n
        invariant
            i <= n == page::count_of(page.data@) == items.len(),
            index_node::idx_leaf(page.data@),
            items == index_node::idx_items(page.data@),
            pred == prefix_fn(prefix@),
            ok == (tree::items_ok(items, None, None) && (found ==> prefix@.is_prefix_of(prev)
                && forall|j: int| 0 <= j < items.len() ==> prev.before((#[trigger] items[j]).0))),
            from <= i,
            started ==> from < i,
            !started ==> from == 0 && (found ==> i == 0),
            forall|j: int|
                0 <= j < i ==> (pred(#[trigger] items[j]) <==> started && from <= j),
        decreases n - i,
    {
        let key: &[u8] = decode_leaf_entry(page, i);
        if starts_with(key, prefix) {
            if !started {
                from = i;
                started = true;
            }
        } else if found || started {
            let to: usize = if started {
                i
            } else {
                0
            };
            proof {
                if ok {
                    let anchor = if started {
                        items[i - 1].0
                    } else {
                        prev
                    };
                    if started {
                        assert(pred(items[i - 1]));
                        assert(items[i - 1].0.before(items[i as int].0));
                    } else {
                        assert(prev.before(items[i as int].0));
                    }
                    assert forall|j: int| 0 <= j < n implies (pred(#[trigger] items[j]) <==> from
                        <= j < to) by {
                        if j > i && pred(items[j]) {
                            assert(items[i as int].0.before(items[j].0));
                            prefix_between(prefix@, anchor, items[i as int].0, items[j].0);
                        }
                    }
                    filter_range(items, pred, from as int, to as int);
                    assert forall|j: int| from <= j < to implies prefix@.is_prefix_of(
                        (#[trigger] items[j]).0,
                    ) by {
                        assert(pred(items[j]));
                    }
                }
            }
            return (from, to, true);
        }
        i += 1;
    }
    let to: usize = if started {
        n
    } else {
        0
    };
    proof {
        if ok {
            filter_range(items, pred, from as int, to as int);
            assert forall|j: int| from <= j < to implies prefix@.is_prefix_of(
                (#[trigger] items[j]).0,
            ) by {
                assert(pred(items[j]));
            }
        }
    }
    (from, to, false)
}

/// Entries of leaves: those from the second to the third number of each.
pub open spec fn range_items(m: Map<u32, Seq<u8>>, rs: Seq<(u32, usize, usize)>) -> Seq<
    (Seq<u8>, ()),
>
    decreases rs.len(),
{
    if rs.len() == 0 {
        Seq::empty()
    } else {
        let r = rs.last();
        range_items(m, rs.drop_last()) + index_node::idx_items(m[r.0]).subrange(
            r.1 as int,
            r.2 as int,
        )
    }
}

/// The ranges lie within leaves.
spec fn ranges_ok(m: Map<u32, Seq<u8>>, rs: Seq<(u32, usize, usize)>) -> bool {
    forall|i: int|
        0 <= i < rs.len() ==> {
            &&& m.contains_key((#[trigger] rs[i]).0)
            &&& index_node::idx_leaf(m[rs[i].0])
            &&& rs[i].1 <= rs[i].2 <= page::count_of(m[rs[i].0])
        }
}

/// The leaves of an index tree form a chain.
proof fn index_chained(m: Map<u32, Seq<u8>>, root: u32)
    requires
        is_index(m, root),
    ensures
        ({
            let t = index_node::idx_view(m);
            let ls = tree::leaves(t, root, tree::height(t, root));
            &&& btree::pages_chained(m, ls)
            &&& tree::leaf_rows(t, ls) == all_keys(m, root)
            &&& forall|i: int|
                0 <= i < ls.len() ==> {
                    &&& m.contains_key(#[trigger] ls[i])
                    &&& index_node::idx_leaf(m[ls[i]])
                    &&& t[ls[i]]->items == index_node::idx_items(m[ls[i]])
                }
        }),
{
    let t = index_node::idx_view(m);
    let h = tree::height(t, root);
    assert(tree::is_root(t, root, h));
    tree::leaves_chained(t, root, h, None, None, 0);
    let ls = tree::leaves(t, root, h);
    assert forall|i: int| 0 <= i < ls.len() implies #[trigger] btree::page_linked(m, ls, i) by {
        assert(tree::linked(t, ls, 0, i));
        assert(tree::owns(t, root, h, ls[i]));
        if i > 0 && ls[i] == 0 {
            assert(ls[0] == ls[i]);
        }
    }
    assert forall|i: int| 0 <= i < ls.len() implies {
        &&& m.contains_key(#[trigger] ls[i])
        &&& index_node::idx_leaf(m[ls[i]])
        &&& t[ls[i]]->items == index_node::idx_items(m[ls[i]])
    } by {
        assert(tree::linked(t, ls, 0, i));
    }
}

/// Finds the entries whose keys begin with `prefix`.
#[verifier::rlimit(30)]
fn prefix_ranges<S: PageSource>(source: &S, root: u32, prefix: &[u8]) -> (r: Result<
    Vec<(u32, usize, usize)>,
>)
    requires
        source.sound(),
    ensures
        r matches Ok(rs) ==> ranges_ok(source.visible(), rs@) && rs@.len() <= u32::MAX,
        walkable_index(source.visible(), root) ==> (r matches Ok(rs) && range_items(
            source.visible(),
            rs@,
        ) == all_keys(source.visible(), root).filter(prefix_fn(prefix@))),
        is_index(source.visible(), root) && !walkable_index(source.visible(), root) ==> r is Err,
        r matches Err(e) ==> e is Corruption || e is Io,
{
    let ghost m = source.visible();
    let ghost t = index_node::idx_view(m);
    let ghost h = tree::height(t, root);
    let ghost ok = walkable_index(m, root);
    let ghost pred = prefix_fn(prefix@);
    let ghost cells = all_keys(m, root);
    let (start, _): (u32, Page) = find_leaf_for_key(source, root, prefix)?;
    let ghost all = tree::leaves(t, root, h);
    let ghost mut j: int = 0;
    proof {
        if ok {
            index_chained(m, root);
            assert(tree::is_root(t, root, h));
            assert(tree::in_range(None::<Seq<u8>>, None, prefix@));
            j = tree::leaf_for_place(t, root, h, None, None, 0, prefix@);
        }
    }
    let leaves: Vec<u32> = follow_chain(source, start, Ghost(all), Ghost(j))?;
    let ghost front = tree::leaf_rows(t, all.take(j));
    let ghost back = tree::leaf_rows(t, leaves@);
    let mut rs: Vec<(u32, usize, usize)> = Vec::new();
    proof {
        if ok {
            tree::leaf_rows_parted(t, all, j);
            tree::all_sorted(t, root);
            assert(cells == front + back);
            assert forall|i: int| 0 <= i < front.len() implies !pred(#[trigger] front[i]) by {
                assert(front[i].0.before(prefix@));
                before_prefix(prefix@, front[i].0);
            }
            btree::filter_none(front, pred);
            Seq::filter_distributes_over_add(front, back, pred);
            assert(cells.filter(pred) =~= back.filter(pred));
            assert forall|a: int, b: int| 0 <= a < b < back.len() implies (#[trigger] back[a]).0.before(
                (#[trigger] back[b]).0,
            ) by {
                assert(cells[front.len() + a] == back[a]);
                assert(cells[front.len() + b] == back[b]);
                assert(cells[front.len() + a].0.before(cells[front.len() + b].0));
            }
            assert forall|i: int| 0 <= i < leaves@.len() implies {
                &&& m.contains_key(#[trigger] leaves@[i])
                &&& index_node::idx_leaf(m[leaves@[i]])
                &&& t[leaves@[i]]->items == index_node::idx_items(m[leaves@[i]])
            } by {
                assert(leaves@[i] == all[j + i]);
            }
        }
        assert(leaves@.take(0) =~= Seq::empty());
        btree::filter_none(tree::leaf_rows(t, leaves@.take(0)), pred);
    }
    let mut found: bool = false;
    let ghost mut prev: Seq<u8> = Seq::empty();
    let mut i: usize = 0;
    while i < leaves.len()
        invariant
            i <= leaves@.len() <= u32::MAX,
            rs@.len() <= i,
            pred == prefix_fn(prefix@),
            m == source.visible(),
            t == index_node::idx_view(m),
            ok == walkable_index(m, root),
            is_index(m, root) ==> ok,
            ranges_ok(m, rs@),
            ok ==> {
                let rest = tree::leaf_rows(t, leaves@.skip(i as int));
                &&& back == tree::leaf_rows(t, leaves@)
                &&& all_keys(m, root).filter(pred) == back.filter(pred)
                &&& forall|a: int, b: int|
                    0 <= a < b < back.len() ==> (#[trigger] back[a]).0.before(
                        (#[trigger] back[b]).0,
                    )
                &&& forall|k: int|
                    0 <= k < leaves@.len() ==> {
                        &&& m.contains_key(#[trigger] leaves@[k])
                        &&& index_node::idx_leaf(m[leaves@[k]])
                        &&& t[leaves@[k]]->items == index_node::idx_items(m[leaves@[k]])
                    }
                &&& found ==> prefix@.is_prefix_of(prev) && forall|k: int|
                    0 <= k < rest.len() ==> prev.before((#[trigger] rest[k]).0)
                &&& range_items(m, rs@) == tree::leaf_rows(t, leaves@.take(i as int)).filter(pred)
            },
        decreases leaves@.len() - i,
    {
        assert(ok ==> m.contains_key(leaves@[i as int]));
        let page: Page = source.fetch(leaves[i])?;
        if !check_idx_leaf(&page) {
            return Err(corruption("malformed leaf page"));
        }
        let ghost items = index_node::idx_items(page.data@);
        let ghost a = tree::leaf_rows(t, leaves@.take(i as int));
        let ghost c = tree::leaf_rows(t, leaves@.skip(i + 1));
        let ghost rest = tree::leaf_rows(t, leaves@.skip(i as int));
        proof {
            if ok {
                tree::leaf_rows_step(t, leaves@, i as int);
                tree::leaf_rows_parted(t, leaves@, i + 1);
                tree::leaf_rows_parted(t, leaves@, i as int);
                assert(back == (a + items) + c);
                assert(back == a + rest);
                assert(rest =~= items + c) by {
                    assert(rest =~= back.skip(a.len() as int));
                    assert(items + c =~= back.skip(a.len() as int));
                }
                assert forall|k: int| found && 0 <= k < items.len() implies prev.before(
                    (#[trigger] items[k]).0,
                ) by {
                    assert(rest[k] == items[k]);
                }
                assert forall|x: int, y: int| 0 <= x < y < items.len() implies (
                #[trigger] items[x]).0.before((#[trigger] items[y]).0) by {
                    assert(back[a.len() + x] == items[x]);
                    assert(back[a.len() + y] == items[y]);
                }
                assert(tree::items_ok(items, None, None));
                Seq::filter_distributes_over_add(a, items, pred);
                Seq::filter_distributes_over_add(a + items, c, pred);
            }
        }
        let (from, to, stop): (usize, usize, bool) = match_range(&page, prefix, found, Ghost(prev));
        if from < to {
            let ghost before = rs@;
            rs.push((leaves[i], from, to));
            proof {
                assert(rs@.drop_last() =~= before);
                assert(rs@.last() == (leaves@[i as int], from, to));
            }
        } else {
            proof {
                if ok {
                    assert(items.subrange(from as int, to as int) =~= Seq::empty());
                    assert(a.filter(pred) + Seq::empty() =~= a.filter(pred));
                }
            }
        }
        assert(ok ==> range_items(m, rs@) == (a + items).filter(pred));
        if stop {
            proof {
                if ok {
                    let bad = items[to as int].0;
                    let anchor = if from < to {
                        items[to - 1].0
                    } else {
                        prev
                    };
                    assert forall|k: int| 0 <= k < c.len() implies !pred(#[trigger] c[k]) by {
                        if pred(c[k]) {
                            assert(back[a.len() + to] == items[to as int]);
                            assert(back[a.len() + items.len() + k] == c[k]);
                            assert(bad.before(c[k].0));
                            if from < to {
                                assert(items[to - 1].0.before(items[to as int].0));
                                assert(prefix@.is_prefix_of(items[to - 1].0));
                            } else {
                                assert(rest[to as int] == items[to as int]);
                            }
                            prefix_between(prefix@, anchor, bad, c[k].0);
                        }
                    }
                    btree::filter_none(c, pred);
                    assert(back.filter(pred) =~= (a + items).filter(pred));
                }
            }
            return Ok(rs);
        }
        proof {
            if ok {
                if from < to {
                    assert(prefix@.is_prefix_of(items[to - 1].0));
                    assert forall|k: int| 0 <= k < c.len() implies items[to - 1].0.before(
                        (#[trigger] c[k]).0,
                    ) by {
                        assert(back[a.len() + to - 1] == items[to - 1]);
                        assert(back[a.len() + items.len() + k] == c[k]);
                    }
                    prev = items[to - 1].0;
                } else if found {
                    assert forall|k: int| 0 <= k < c.len() implies prev.before(
                        (#[trigger] c[k]).0,
                    ) by {
                        assert(rest[items.len() + k] == c[k]);
                    }
                }
            }
        }
        found = found || from < to;
        i += 1;
    }
    assert(leaves@.take(leaves@.len() as int) =~= leaves@);
    Ok(rs)
}

/// How many of `n` keys are collected when there may be at most `max`.
pub open spec fn collected_of(n: nat, max: Option<usize>) -> nat {
    match max {
        Some(m) if m < n => m as nat,
        _ => n,
    }
}

/// Read access to an index tree in a page file.
pub struct IndexTreeReader<'a> {
    file: &'a PageFile,
    root: u32,
}

impl<'a> IndexTreeReader<'a> {
    /// The pages that the reader sees.
    pub closed spec fn pages(&self) -> Map<u32, Seq<u8>> {
        self.file.contents()
    }

    /// The root of the tree.
    pub closed spec fn root_no(&self) -> u32 {
        self.root
    }

    pub fn new(file: &'a PageFile, root: u32) -> (r: IndexTreeReader<'a>)
        ensures
            r.pages() == file.contents(),
            r.root_no() == root,
    {
        IndexTreeReader { file, root }
    }

    pub fn root_page(&self) -> (p: u32)
        ensures
            p == self.root_no(),
    {
        self.root
    }

    /// All keys that begin with `prefix`, in ascending order.
    pub fn scan_prefix(&self, prefix: &[u8]) -> (r: Result<Vec<Vec<u8>>>)
        ensures
            walkable_index(self.pages(), self.root_no()) ==> (r matches Ok(v)
                && index_node::key_views(v@) == keys_with(
                self.pages(),
                self.root_no(),
                prefix@,
            )),
            is_index(self.pages(), self.root_no()) && !walkable_index(self.pages(), self.root_no())
                ==> r is Err,
            r matches Err(e) ==> e is Corruption || e is Io,
    {
        let r: Result<Vec<Vec<u8>>> = self.collect(prefix, None);
        proof {
            let k = keys_with(self.pages(), self.root_no(), prefix@);
            assert(k.take(k.len() as int) =~= k);
        }
        r
    }

    /// The first keys that begin with `prefix`, in ascending order: collecting stops
    /// once there are `max` of them.
    pub fn scan_prefix_limit(&self, prefix: &[u8], max: usize) -> (r: Result<Vec<Vec<u8>>>)
        ensures
            walkable_index(self.pages(), self.root_no()) ==> (r matches Ok(v)
                && index_node::key_views(v@) == keys_with(
                self.pages(),
                self.root_no(),
                prefix@,
            ).take(
                collected_of(
                    keys_with(self.pages(), self.root_no(), prefix@).len(),
                    Some(max),
                ) as int,
            )),
            is_index(self.pages(), self.root_no()) && !walkable_index(self.pages(), self.root_no())
                ==> r is Err,
            r matches Err(e) ==> e is Corruption || e is Io,
    {
        self.collect(prefix, Some(max))
    }

    fn collect(&self, prefix: &[u8], max: Option<usize>) -> (r: Result<Vec<Vec<u8>>>)
        ensures
            walkable_index(self.pages(), self.root_no()) ==> (r matches Ok(v)
                && index_node::key_views(v@) == keys_with(
                self.pages(),
                self.root_no(),
                prefix@,
            ).take(
                collected_of(keys_with(self.pages(), self.root_no(), prefix@).len(), max) as int,
            )),
            is_index(self.pages(), self.root_no()) && !walkable_index(self.pages(), self.root_no())
                ==> r is Err,
            r matches Err(e) ==> e is Corruption || e is Io,
    {
        let ghost m = self.pages();
        let rs: Vec<(u32, usize, usize)> = prefix_ranges(self.file, self.root, prefix)?;
        let mut out: Vec<Vec<u8>> = Vec::new();
        if max == Some(0usize) {
            proof {
                let k = keys_with(m, self.root_no(), prefix@);
                assert(index_node::key_views(out@) =~= k.take(0));
            }
            return Ok(out);
        }
        let mut i: usize = 0;
        proof {
            assert(rs@.take(0) =~= Seq::empty());
            assert(index_node::key_views(out@) =~= names(range_items(m, rs@.take(0))));
        }
        while i < rs.len()
            invariant
                i <= rs@.len(),
                m == self.pages(),
                m == self.file.visible(),
                ranges_ok(m, rs@),
                index_node::key_views(out@) == names(range_items(m, rs@.take(i as int))),
                collected_of((out@.len() + 1) as nat, max) == out@.len() + 1,
                walkable_index(m, self.root_no()) ==> names(range_items(m, rs@)) == keys_with(
                    m,
                    self.root_no(),
                    prefix@,
                ),
                is_index(m, self.root_no()) ==> walkable_index(m, self.root_no()),
            decreases rs@.len() - i,
        {
            let (leaf, from, to): (u32, usize, usize) = rs[i];
            assert(rs@[i as int].0 == leaf);
            let page: Page = self.file.fetch(leaf)?;
            let ghost items = index_node::idx_items(page.data@);
            let ghost a = range_items(m, rs@.take(i as int));
            let ghost tail = tail_items(m, rs@, i + 1);
            proof {
                range_items_parted(m, rs@, i + 1);
                assert(rs@.take(i + 1).drop_last() =~= rs@.take(i as int));
                assert(rs@.take(i + 1).last() == rs@[i as int]);
            }
            let mut j: usize = from;
            assert(a + items.subrange(from as int, from as int) =~= a);
            while j < to
                invariant
                    from <= j <= to <= items.len() == page::count_of(page.data@),
                    index_node::idx_leaf(page.data@),
                    items == index_node::idx_items(page.data@),
                    index_node::key_views(out@) == names(
                        a + items.subrange(from as int, j as int),
                    ),
                    collected_of((out@.len() + 1) as nat, max) == out@.len() + 1,
                    range_items(m, rs@) == (a + items.subrange(from as int, to as int)) + tail,
                    walkable_index(m, self.root_no()) ==> names(range_items(m, rs@)) == keys_with(
                        m,
                        self.root_no(),
                        prefix@,
                    ),
                    is_index(m, self.root_no()) ==> walkable_index(m, self.root_no()),
                    m == self.pages(),
                decreases to - j,
            {
                let key: &[u8] = decode_leaf_entry(&page, j);
                let ghost before = out@;
                out.push(copy_slice(key));
                proof {
                    assert(index_node::key_views(out@) =~= index_node::key_views(before).push(
                        items[j as int].0,
                    ));
                    assert(a + items.subrange(from as int, j + 1) =~= (a + items.subrange(
                        from as int,
                        j as int,
                    )).push(items[j as int]));
                    assert(names(
                        (a + items.subrange(from as int, j as int)).push(items[j as int]),
                    ) =~= names(a + items.subrange(from as int, j as int)).push(
                        items[j as int].0,
                    ));
                }
                j += 1;
                if let Some(limit) = max {
                    if out.len() >= limit {
                        proof {
                            let part = a + items.subrange(from as int, j as int);
                            let left = items.subrange(j as int, to as int) + tail;
                            assert(range_items(m, rs@) =~= part + left);
                            let full = names(range_items(m, rs@));
                            assert(full.len() == part.len() + left.len());
                            assert(names(part) =~= full.take(part.len() as int));
                        }
                        return Ok(out);
                    }
                }
            }
            i += 1;
        }
        proof {
            assert(rs@.take(rs@.len() as int) =~= rs@);
            let full = names(range_items(m, rs@));
            assert(full.take(full.len() as int) =~= full);
        }
        Ok(out)
    }

    /// Counts the keys that begin with `prefix`.
    pub fn count_prefix(&self, prefix: &[u8]) -> (r: Result<u64>)
        ensures
            walkable_index(self.pages(), self.root_no()) ==> (r matches Ok(n) && n == keys_with(
                self.pages(),
                self.root_no(),
                prefix@,
            ).len()),
            is_index(self.pages(), self.root_no()) && !walkable_index(self.pages(), self.root_no())
                ==> r is Err,
            r matches Err(e) ==> e is Corruption || e is Io,
    {
        let ghost m = self.pages();
        let rs: Vec<(u32, usize, usize)> = prefix_ranges(self.file, self.root, prefix)?;
        let mut count: u64 = 0;
        let mut i: usize = 0;
        assert(rs@.take(0) =~= Seq::empty());
        while i < rs.len()
            invariant
                i <= rs@.len() <= u32::MAX,
                ranges_ok(m, rs@),
                count == range_items(m, rs@.take(i as int)).len(),
                count <= 4096 * i,
            decreases rs@.len() - i,
        {
            let (leaf, from, to): (u32, usize, usize) = rs[i];
            proof {
                assert(rs@[i as int].0 == leaf);
                index_node::idx_kinds(m[leaf]);
                assert(rs@.take(i + 1).drop_last() =~= rs@.take(i as int));
                assert(rs@.take(i + 1).last() == rs@[i as int]);
            }
            count = count + (to - from) as u64;
            i += 1;
        }
        assert(rs@.take(rs@.len() as int) =~= rs@);
        Ok(count)
    }
}

/// The entries of the ranges from the `n`-th on.
spec fn tail_items(m: Map<u32, Seq<u8>>, rs: Seq<(u32, usize, usize)>, n: int) -> Seq<(Seq<u8>, ())> {
    range_items(m, rs).skip(range_items(m, rs.take(n)).len() as int)
}

proof fn range_items_parted(m: Map<u32, Seq<u8>>, rs: Seq<(u32, usize, usize)>, n: int)
    requires
        0 <= n <= rs.len(),
    ensures
        range_items(m, rs.take(n)).len() <= range_items(m, rs).len(),
        range_items(m, rs) == range_items(m, rs.take(n)) + tail_items(m, rs, n),
    decreases rs.len() - n,
{
    range_items_prefix(m, rs, n);
    assert(range_items(m, rs) =~= range_items(m, rs.take(n)) + tail_items(m, rs, n));
}

proof fn range_items_prefix(m: Map<u32, Seq<u8>>, rs: Seq<(u32, usize, usize)>, n: int)
    requires
        0 <= n <= rs.len(),
    ensures
        range_items(m, rs.take(n)).len() <= range_items(m, rs).len(),
        range_items(m, rs).take(range_items(m, rs.take(n)).len() as int) == range_items(
            m,
            rs.take(n),
        ),
    decreases rs.len(),
{
    if n == rs.len() {
        assert(rs.take(n) =~= rs);
        assert(range_items(m, rs).take(range_items(m, rs).len() as int) =~= range_items(m, rs));
    } else {
        let d = rs.drop_last();
        range_items_prefix(m, d, n);
        assert(d.take(n) =~= rs.take(n));
        let k = range_items(m, rs.take(n)).len() as int;
        assert(range_items(m, rs).take(k) =~= range_items(m, d).take(k));
    }
}

}
