//! The shape of a B+ tree, apart from how its nodes are laid out in pages.
//!
//! A tree is seen through a map from page numbers to nodes. Leaves hold keyed
//! values in ascending order and are chained from left to right; branches
//! route a key to the child whose range holds it.

use vstd::prelude::*;

verus! {

/// Keys with a strict total order.
pub trait Key: Sized {
    spec fn before(self, other: Self) -> bool;

    proof fn irreflexive(a: Self)
        ensures
            !a.before(a),
    ;

    proof fn transitive(a: Self, b: Self, c: Self)
        requires
            a.before(b),
            b.before(c),
        ensures
            a.before(c),
    ;

    proof fn total(a: Self, b: Self)
        ensures
            a.before(b) || a == b || b.before(a),
    ;
}

/// A node of a tree.
#[verifier::ext_equal]
pub enum Node<K, V> {
    Leaf { items: Seq<(K, V)>, next: u32 },
    Branch { children: Seq<u32>, keys: Seq<K> },
    Other,
}

/// `lo <= k < hi`, where `None` is no bound.
pub open spec fn in_range<K: Key>(lo: Option<K>, hi: Option<K>, k: K) -> bool {
    &&& lo matches Some(l) ==> !k.before(l)
    &&& hi matches Some(h) ==> k.before(h)
}

/// `lo < k < hi`, where `None` is no bound.
pub open spec fn inside<K: Key>(lo: Option<K>, hi: Option<K>, k: K) -> bool {
    &&& lo matches Some(l) ==> l.before(k)
    &&& hi matches Some(h) ==> k.before(h)
}

/// Ascending items whose keys are in range.
pub open spec fn items_ok<K: Key, V>(items: Seq<(K, V)>, lo: Option<K>, hi: Option<K>) -> bool {
    &&& forall|i: int| 0 <= i < items.len() ==> in_range(lo, hi, (#[trigger] items[i]).0)
    &&& forall|i: int, j: int|
        0 <= i < j < items.len() ==> (#[trigger] items[i]).0.before((#[trigger] items[j]).0)
}

/// Ascending separators strictly inside the range.
pub open spec fn keys_ok<K: Key>(keys: Seq<K>, lo: Option<K>, hi: Option<K>) -> bool {
    &&& forall|i: int| 0 <= i < keys.len() ==> inside(lo, hi, #[trigger] keys[i])
    &&& forall|i: int, j: int|
        0 <= i < j < keys.len() ==> (#[trigger] keys[i]).before(#[trigger] keys[j])
}

/// The lower bound of child `i`.
pub open spec fn kid_lo<K>(keys: Seq<K>, lo: Option<K>, i: int) -> Option<K> {
    if i == 0 {
        lo
    } else {
        Some(keys[i - 1])
    }
}

/// The upper bound of child `i`.
pub open spec fn kid_hi<K>(keys: Seq<K>, hi: Option<K>, i: int) -> Option<K> {
    if i == keys.len() {
        hi
    } else {
        Some(keys[i])
    }
}

/// The leftmost leaf below `p`.
#[verifier::opaque]
pub open spec fn first_leaf<K, V>(t: Map<u32, Node<K, V>>, p: u32, h: nat) -> u32
    decreases h,
{
    if h == 0 {
        p
    } else {
        match t[p] {
            Node::Branch { children, .. } => first_leaf(t, children[0], (h - 1) as nat),
            _ => p,
        }
    }
}

/// The leaf that follows the leaves of child `i`.
pub open spec fn kid_end<K, V>(
    t: Map<u32, Node<K, V>>,
    children: Seq<u32>,
    h: nat,
    i: int,
    end: u32,
) -> u32 {
    if i + 1 < children.len() {
        first_leaf(t, children[i + 1], h)
    } else {
        end
    }
}

/// Page `q` is a node of the tree of height `h` below `p`.
#[verifier::opaque]
pub open spec fn owns<K, V>(t: Map<u32, Node<K, V>>, p: u32, h: nat, q: u32) -> bool
    decreases h,
{
    q == p || (h > 0 && match t[p] {
        Node::Branch { children, .. } => exists|i: int|
            0 <= i < children.len() && owns(t, #[trigger] children[i], (h - 1) as nat, q),
        _ => false,
    })
}

/// A well-formed tree of height `h` below `p`: its keys lie between `lo` and
/// `hi`, its leaves are chained, and the last of them points to `end`.
#[verifier::opaque]
pub open spec fn wf<K: Key, V>(
    t: Map<u32, Node<K, V>>,
    p: u32,
    h: nat,
    lo: Option<K>,
    hi: Option<K>,
    end: u32,
) -> bool
    decreases h,
{
    &&& t.contains_key(p)
    &&& match t[p] {
        Node::Leaf { items, next } => h == 0 && items_ok(items, lo, hi) && next == end,
        Node::Branch { children, keys } => {
            &&& h > 0
            &&& keys.len() > 0
            &&& children.len() == keys.len() + 1
            &&& keys_ok(keys, lo, hi)
            &&& forall|i: int|
                0 <= i < children.len() ==> wf(
                    t,
                    #[trigger] children[i],
                    (h - 1) as nat,
                    kid_lo(keys, lo, i),
                    kid_hi(keys, hi, i),
                    kid_end(t, children, (h - 1) as nat, i, end),
                )
            &&& forall|i: int|
                0 <= i < children.len() ==> !owns(t, #[trigger] children[i], (h - 1) as nat, p)
            &&& apart(t, children, (h - 1) as nat)
        },
        Node::Other => false,
    }
}

/// Child `i` is well-formed within its bounds, and its leaves are followed by
/// those of the next child.
pub open spec fn kid_wf<K: Key, V>(
    t: Map<u32, Node<K, V>>,
    children: Seq<u32>,
    keys: Seq<K>,
    h: nat,
    lo: Option<K>,
    hi: Option<K>,
    end: u32,
    i: int,
) -> bool {
    wf(
        t,
        children[i],
        h,
        kid_lo(keys, lo, i),
        kid_hi(keys, hi, i),
        kid_end(t, children, h, i, end),
    )
}

/// No page belongs to two of the children.
pub open spec fn apart<K, V>(t: Map<u32, Node<K, V>>, children: Seq<u32>, h: nat) -> bool {
    forall|i: int, j: int, q: u32|
        0 <= i < j < children.len() ==> !(#[trigger] owns(t, children[i], h, q)
            && #[trigger] owns(t, children[j], h, q))
}

/// The first separator above `k`, counted from `i`.
pub open spec fn route_from<K: Key>(keys: Seq<K>, k: K, i: int) -> int
    decreases keys.len() - i,
{
    if i >= keys.len() {
        keys.len() as int
    } else if k.before(keys[i]) {
        i
    } else {
        route_from(keys, k, i + 1)
    }
}

/// The child that a key belongs to.
pub open spec fn route<K: Key>(keys: Seq<K>, k: K) -> int {
    route_from(keys, k, 0)
}

/// The value stored under `k`.
pub open spec fn item_find<K, V>(items: Seq<(K, V)>, k: K) -> Option<V> {
    if exists|i: int| 0 <= i < items.len() && (#[trigger] items[i]).0 == k {
        let i = choose|i: int| 0 <= i < items.len() && (#[trigger] items[i]).0 == k;
        Some(items[i].1)
    } else {
        None
    }
}

/// The value that the tree holds under `k`.
#[verifier::opaque]
pub open spec fn find<K: Key, V>(t: Map<u32, Node<K, V>>, p: u32, h: nat, k: K) -> Option<V>
    decreases h,
{
    match t[p] {
        Node::Leaf { items, .. } => item_find(items, k),
        Node::Branch { children, keys } => if h == 0 {
            None
        } else {
            find(t, children[route(keys, k)], (h - 1) as nat, k)
        },
        Node::Other => None,
    }
}

/// All items of the tree, from left to right.
#[verifier::opaque]
pub open spec fn rows<K, V>(t: Map<u32, Node<K, V>>, p: u32, h: nat) -> Seq<(K, V)>
    decreases h, 0nat,
{
    match t[p] {
        Node::Leaf { items, .. } => items,
        Node::Branch { children, .. } => if h == 0 {
            Seq::empty()
        } else {
            kids_rows(t, children, (h - 1) as nat)
        },
        Node::Other => Seq::empty(),
    }
}

/// All items of the given subtrees, from left to right.
#[verifier::opaque]
pub open spec fn kids_rows<K, V>(t: Map<u32, Node<K, V>>, children: Seq<u32>, h: nat) -> Seq<
    (K, V),
>
    decreases h, children.len() + 1,
{
    if children.len() == 0 {
        Seq::empty()
    } else {
        kids_rows(t, children.drop_last(), h) + rows(t, children.last(), h)
    }
}

/// The leaves of the tree, from left to right.
#[verifier::opaque]
pub open spec fn leaves<K, V>(t: Map<u32, Node<K, V>>, p: u32, h: nat) -> Seq<u32>
    decreases h, 0nat,
{
    if h == 0 {
        seq![p]
    } else {
        match t[p] {
            Node::Branch { children, .. } => kids_leaves(t, children, (h - 1) as nat),
            _ => seq![p],
        }
    }
}

/// The leaves of the given subtrees, from left to right.
#[verifier::opaque]
pub open spec fn kids_leaves<K, V>(t: Map<u32, Node<K, V>>, children: Seq<u32>, h: nat) -> Seq<u32>
    decreases h, children.len() + 1,
{
    if children.len() == 0 {
        Seq::empty()
    } else {
        kids_leaves(t, children.drop_last(), h) + leaves(t, children.last(), h)
    }
}

/// Every page outside the tree below `p` is as it was.
pub open spec fn kept<K, V>(
    t: Map<u32, Node<K, V>>,
    t2: Map<u32, Node<K, V>>,
    p: u32,
    h: nat,
) -> bool {
    forall|q: u32| #[trigger]
        t.contains_key(q) && !owns(t, p, h, q) ==> t2.contains_key(q) && t2[q] == t[q]
}

/// The tree below `r` consists of pages of the old tree below `p` and of pages
/// that did not exist before.
pub open spec fn claims<K, V>(
    t: Map<u32, Node<K, V>>,
    t2: Map<u32, Node<K, V>>,
    p: u32,
    r: u32,
    h: nat,
) -> bool {
    forall|q: u32| #[trigger] owns(t2, r, h, q) ==> owns(t, p, h, q) || !t.contains_key(q)
}

// ---------------------------------------------------------------------------
// Facts about single nodes
// ---------------------------------------------------------------------------

/// What `route` computes, said without recursion.
pub proof fn route_spec<K: Key>(keys: Seq<K>, k: K)
    ensures
        0 <= route(keys, k) <= keys.len(),
        forall|j: int| 0 <= j < route(keys, k) ==> !k.before(#[trigger] keys[j]),
        route(keys, k) < keys.len() ==> k.before(keys[route(keys, k)]),
{
    route_from_spec(keys, k, 0);
}

proof fn route_from_spec<K: Key>(keys: Seq<K>, k: K, i: int)
    requires
        0 <= i <= keys.len(),
        forall|j: int| 0 <= j < i ==> !k.before(#[trigger] keys[j]),
    ensures
        i <= route_from(keys, k, i) <= keys.len(),
        forall|j: int| 0 <= j < route_from(keys, k, i) ==> !k.before(#[trigger] keys[j]),
        route_from(keys, k, i) < keys.len() ==> k.before(keys[route_from(keys, k, i)]),
    decreases keys.len() - i,
{
    if i < keys.len() && !k.before(keys[i]) {
        route_from_spec(keys, k, i + 1);
    }
}

/// `route` is the only index with its property.
pub proof fn route_unique<K: Key>(keys: Seq<K>, k: K, r: int)
    requires
        0 <= r <= keys.len(),
        forall|j: int| 0 <= j < r ==> !k.before(#[trigger] keys[j]),
        r < keys.len() ==> k.before(keys[r]),
    ensures
        route(keys, k) == r,
{
    route_spec(keys, k);
    let s = route(keys, k);
    if s < r {
        assert(!k.before(keys[s]));
    } else if r < s {
        assert(!k.before(keys[r]));
    }
}

/// A key within the bounds of a branch is within those of the child it is
/// routed to.
pub proof fn route_in_kid<K: Key>(keys: Seq<K>, k: K, lo: Option<K>, hi: Option<K>)
    requires
        in_range(lo, hi, k),
    ensures
        ({
            let i = route(keys, k);
            in_range(kid_lo(keys, lo, i), kid_hi(keys, hi, i), k)
        }),
{
    route_spec(keys, k);
}

/// A key within the bounds of a child is routed to it.
pub proof fn kid_in_route<K: Key>(keys: Seq<K>, k: K, lo: Option<K>, hi: Option<K>, i: int)
    requires
        keys_ok(keys, lo, hi),
        0 <= i <= keys.len(),
        in_range(kid_lo(keys, lo, i), kid_hi(keys, hi, i), k),
    ensures
        route(keys, k) == i,
        in_range(lo, hi, k),
{
    assert forall|j: int| 0 <= j < i implies !k.before(#[trigger] keys[j]) by {
        if k.before(keys[j]) && j < i - 1 {
            K::transitive(k, keys[j], keys[i - 1]);
        }
    }
    route_unique(keys, k, i);
    if i > 0 && lo is Some {
        if k.before(lo->0) {
            K::transitive(k, lo->0, keys[i - 1]);
        }
    }
    if i < keys.len() && hi is Some {
        K::transitive(k, keys[i], hi->0);
    }
}

/// In ascending items the value under a key is that of the one item with it.
pub proof fn item_find_at<K: Key, V>(items: Seq<(K, V)>, lo: Option<K>, hi: Option<K>, i: int)
    requires
        items_ok(items, lo, hi),
        0 <= i < items.len(),
    ensures
        item_find(items, items[i].0) == Some(items[i].1),
{
    let k = items[i].0;
    let j = choose|j: int| 0 <= j < items.len() && (#[trigger] items[j]).0 == k;
    assert(items[j].0 == k);
    K::irreflexive(k);
}

/// Where every item differs from the key, nothing is found.
pub proof fn item_find_none<K: Key, V>(items: Seq<(K, V)>, k: K)
    requires
        forall|i: int| 0 <= i < items.len() ==> (#[trigger] items[i]).0 != k,
    ensures
        item_find(items, k) is None,
{
}

/// Inserting a key between its neighbours keeps the items ascending and adds
/// exactly that key.
pub proof fn items_insert<K: Key, V>(
    items: Seq<(K, V)>,
    lo: Option<K>,
    hi: Option<K>,
    pos: int,
    k: K,
    v: V,
)
    requires
        items_ok(items, lo, hi),
        0 <= pos <= items.len(),
        in_range(lo, hi, k),
        forall|i: int| 0 <= i < pos ==> (#[trigger] items[i]).0.before(k),
        forall|i: int| pos <= i < items.len() ==> k.before((#[trigger] items[i]).0),
    ensures
        items_ok(items.insert(pos, (k, v)), lo, hi),
        forall|k2: K| #[trigger]
            item_find(items.insert(pos, (k, v)), k2) == if k2 == k {
                Some(v)
            } else {
                item_find(items, k2)
            },
{
    let n = items.insert(pos, (k, v));
    assert forall|i: int, j: int| 0 <= i < j < n.len() implies (#[trigger] n[i]).0.before(
        (#[trigger] n[j]).0,
    ) by {
        let a = if i < pos { i } else { i - 1 };
        let b = if j < pos { j } else { j - 1 };
        if i != pos {
            assert(n[i] == items[a]);
        }
        if j != pos {
            assert(n[j] == items[b]);
        }
    }
    assert forall|i: int| 0 <= i < n.len() implies in_range(lo, hi, (#[trigger] n[i]).0) by {
        if i < pos {
            assert(n[i] == items[i]);
        } else if i > pos {
            assert(n[i] == items[i - 1]);
        }
    }
    assert forall|k2: K| #[trigger]
        item_find(n, k2) == if k2 == k {
            Some(v)
        } else {
            item_find(items, k2)
        } by {
        if k2 == k {
            item_find_at(n, lo, hi, pos);
        } else if exists|i: int| 0 <= i < items.len() && (#[trigger] items[i]).0 == k2 {
            let i = choose|i: int| 0 <= i < items.len() && (#[trigger] items[i]).0 == k2;
            let j = if i < pos { i } else { i + 1 };
            assert(n[j] == items[i]);
            item_find_at(items, lo, hi, i);
            item_find_at(n, lo, hi, j);
        } else {
            assert forall|j: int| 0 <= j < n.len() implies (#[trigger] n[j]).0 != k2 by {
                if j < pos {
                    assert(n[j] == items[j]);
                } else if j > pos {
                    assert(n[j] == items[j - 1]);
                }
            }
        }
    }
}

/// Taking an item out keeps the rest ascending and removes exactly its key.
pub proof fn items_remove<K: Key, V>(items: Seq<(K, V)>, lo: Option<K>, hi: Option<K>, pos: int)
    requires
        items_ok(items, lo, hi),
        0 <= pos < items.len(),
    ensures
        items_ok(items.remove(pos), lo, hi),
        forall|k2: K| #[trigger]
            item_find(items.remove(pos), k2) == if k2 == items[pos].0 {
                None
            } else {
                item_find(items, k2)
            },
{
    let n = items.remove(pos);
    assert forall|i: int, j: int| 0 <= i < j < n.len() implies (#[trigger] n[i]).0.before(
        (#[trigger] n[j]).0,
    ) by {
        assert(n[i] == items[if i < pos { i } else { i + 1 }]);
        assert(n[j] == items[if j < pos { j } else { j + 1 }]);
    }
    assert forall|i: int| 0 <= i < n.len() implies in_range(lo, hi, (#[trigger] n[i]).0) by {
        assert(n[i] == items[if i < pos { i } else { i + 1 }]);
    }
    assert forall|k2: K| #[trigger]
        item_find(n, k2) == if k2 == items[pos].0 {
            None
        } else {
            item_find(items, k2)
        } by {
        if k2 == items[pos].0 {
            assert forall|j: int| 0 <= j < n.len() implies (#[trigger] n[j]).0 != k2 by {
                assert(n[j] == items[if j < pos { j } else { j + 1 }]);
                K::irreflexive(k2);
            }
        } else if exists|i: int| 0 <= i < items.len() && (#[trigger] items[i]).0 == k2 {
            let i = choose|i: int| 0 <= i < items.len() && (#[trigger] items[i]).0 == k2;
            let j = if i < pos { i } else { i - 1 };
            assert(n[j] == items[i]);
            item_find_at(items, lo, hi, i);
            item_find_at(n, lo, hi, j);
        } else {
            assert forall|j: int| 0 <= j < n.len() implies (#[trigger] n[j]).0 != k2 by {
                assert(n[j] == items[if j < pos { j } else { j + 1 }]);
            }
        }
    }
}

// ---------------------------------------------------------------------------
// Facts about whole trees
// ---------------------------------------------------------------------------

/// What the tree functions say of a leaf.
pub proof fn leaf_facts<K: Key, V>(t: Map<u32, Node<K, V>>, p: u32)
    ensures
        forall|q: u32| #[trigger] owns(t, p, 0, q) <==> q == p,
        first_leaf(t, p, 0) == p,
        leaves(t, p, 0) == seq![p],
        t[p] matches Node::Leaf { items, next } ==> rows(t, p, 0) == items && forall|k: K| #[trigger]
            find(t, p, 0, k) == item_find(items, k),
{
    reveal(owns);
    reveal(first_leaf);
    reveal(leaves);
    reveal(rows);
    reveal(find);
}

/// What the tree functions say of a branch.
pub proof fn branch_facts<K: Key, V>(t: Map<u32, Node<K, V>>, p: u32, h: nat, h1: nat)
    requires
        h == h1 + 1,
        t[p] is Branch,
    ensures
        forall|q: u32| #[trigger]
            owns(t, p, h, q) && q != p ==> exists|i: int|
                0 <= i < t[p]->children.len() && #[trigger] owns(t, t[p]->children[i], h1, q),
        forall|i: int, q: u32|
            0 <= i < t[p]->children.len() && #[trigger] owns(t, t[p]->children[i], h1, q) ==> owns(
                t,
                p,
                h,
                q,
            ),
        owns(t, p, h, p),
        first_leaf(t, p, h) == first_leaf(t, t[p]->children[0], h1),
        forall|k: K| #[trigger]
            find(t, p, h, k) == find(t, t[p]->children[route(t[p]->keys, k)], h1, k),
        rows(t, p, h) == kids_rows(t, t[p]->children, h1),
        leaves(t, p, h) == kids_leaves(t, t[p]->children, h1),
{
    reveal(owns);
    reveal(first_leaf);
    reveal(leaves);
    reveal(kids_leaves);
    reveal(rows);
    reveal(kids_rows);
    reveal(find);
    let children = t[p]->children;
    assert forall|q: u32| #[trigger] owns(t, p, h, q) && q != p implies exists|i: int|
        0 <= i < children.len() && #[trigger] owns(t, children[i], h1, q) by {
        let i = choose|i: int| 0 <= i < children.len() && owns(t, #[trigger] children[i], h1, q);
        assert(owns(t, children[i], h1, q));
    }
    assert forall|i: int, q: u32|
        0 <= i < children.len() && #[trigger] owns(t, children[i], h1, q) implies owns(
        t,
        p,
        h,
        q,
    ) by {
        assert(0 <= i < children.len() && owns(t, children[i], h1, q));
    }
}

/// Leaves are the trees of height zero.
pub proof fn wf_shape<K: Key, V>(
    t: Map<u32, Node<K, V>>,
    p: u32,
    h: nat,
    lo: Option<K>,
    hi: Option<K>,
    end: u32,
)
    requires
        wf(t, p, h, lo, hi, end),
    ensures
        t.contains_key(p),
        h == 0 <==> t[p] is Leaf,
        h > 0 <==> t[p] is Branch,
        !(t[p] is Other),
{
    reveal(wf);
}

/// What well-formedness says of a leaf.
pub proof fn wf_leaf<K: Key, V>(
    t: Map<u32, Node<K, V>>,
    p: u32,
    lo: Option<K>,
    hi: Option<K>,
    end: u32,
)
    ensures
        wf(t, p, 0, lo, hi, end) <==> t.contains_key(p) && t[p] is Leaf && items_ok(
            t[p]->items,
            lo,
            hi,
        ) && t[p]->next == end,
{
    reveal(wf);
}

/// What well-formedness says of a branch.
pub proof fn wf_branch<K: Key, V>(
    t: Map<u32, Node<K, V>>,
    p: u32,
    h: nat,
    h1: nat,
    lo: Option<K>,
    hi: Option<K>,
    end: u32,
)
    requires
        h == h1 + 1,
        wf(t, p, h, lo, hi, end),
    ensures
        t.contains_key(p),
        t[p] is Branch,
        t[p]->keys.len() > 0,
        t[p]->children.len() == t[p]->keys.len() + 1,
        keys_ok(t[p]->keys, lo, hi),
        forall|i: int|
            0 <= i < t[p]->children.len() ==> #[trigger] kid_wf(
                t,
                t[p]->children,
                t[p]->keys,
                h1,
                lo,
                hi,
                end,
                i,
            ),
        forall|i: int|
            0 <= i < t[p]->children.len() ==> !#[trigger] owns(t, t[p]->children[i], h1, p),
        apart(t, t[p]->children, h1),
        forall|q: u32| #[trigger]
            owns(t, p, h, q) && q != p ==> exists|i: int|
                0 <= i < t[p]->children.len() && #[trigger] owns(t, t[p]->children[i], h1, q),
        forall|i: int, q: u32|
            0 <= i < t[p]->children.len() && #[trigger] owns(t, t[p]->children[i], h1, q) ==> owns(
                t,
                p,
                h,
                q,
            ),
        owns(t, p, h, p),
{
    let children = t[p]->children;
    let keys = t[p]->keys;
    reveal(wf);
    assert(t[p] is Branch);
    assert forall|i: int| 0 <= i < children.len() implies #[trigger] kid_wf(
        t,
        children,
        keys,
        h1,
        lo,
        hi,
        end,
        i,
    ) by {
        let c = children[i];
    }
    assert forall|i: int| 0 <= i < children.len() implies !#[trigger] owns(
        t,
        children[i],
        h1,
        p,
    ) by {
        let c = children[i];
    }
    branch_facts(t, p, h, h1);
    assert(apart(t, children, h1));
}

/// What makes a branch well-formed.
pub proof fn branch_wf<K: Key, V>(
    t: Map<u32, Node<K, V>>,
    p: u32,
    h: nat,
    h1: nat,
    lo: Option<K>,
    hi: Option<K>,
    end: u32,
)
    requires
        h == h1 + 1,
        t.contains_key(p),
        t[p] is Branch,
        t[p]->keys.len() > 0,
        t[p]->children.len() == t[p]->keys.len() + 1,
        keys_ok(t[p]->keys, lo, hi),
        forall|i: int|
            0 <= i < t[p]->children.len() ==> #[trigger] kid_wf(
                t,
                t[p]->children,
                t[p]->keys,
                h1,
                lo,
                hi,
                end,
                i,
            ),
        forall|i: int|
            0 <= i < t[p]->children.len() ==> !#[trigger] owns(t, t[p]->children[i], h1, p),
        apart(t, t[p]->children, h1),
    ensures
        wf(t, p, h, lo, hi, end),
{
    reveal(wf);
    let children = t[p]->children;
    let keys = t[p]->keys;
    assert forall|i: int| 0 <= i < children.len() implies wf(
        t,
        #[trigger] children[i],
        h1,
        kid_lo(keys, lo, i),
        kid_hi(keys, hi, i),
        kid_end(t, children, h1, i, end),
    ) && !owns(t, children[i], h1, p) by {
        assert(kid_wf(t, children, keys, h1, lo, hi, end, i));
        assert(!owns(t, t[p]->children[i], h1, p));
    }
}

/// The pages of a well-formed tree exist.
pub proof fn owned_exist<K: Key, V>(
    t: Map<u32, Node<K, V>>,
    p: u32,
    h: nat,
    lo: Option<K>,
    hi: Option<K>,
    end: u32,
)
    requires
        wf(t, p, h, lo, hi, end),
    ensures
        forall|q: u32| #[trigger] owns(t, p, h, q) ==> t.contains_key(q) && !(t[q] is Other),
    decreases h,
{
    wf_shape(t, p, h, lo, hi, end);
    if h == 0 {
        leaf_facts(t, p);
    } else {
        let h1 = (h - 1) as nat;
        wf_branch(t, p, h, h1, lo, hi, end);
        let children = t[p]->children;
        let keys = t[p]->keys;
        assert forall|q: u32| #[trigger] owns(t, p, h, q) implies t.contains_key(q) && !(t[
            q
        ] is Other) by {
            if q != p {
                let i = choose|i: int|
                    0 <= i < children.len() && #[trigger] owns(t, children[i], h1, q);
                assert(kid_wf(t, children, keys, h1, lo, hi, end, i));
                owned_exist(
                    t,
                    children[i],
                    h1,
                    kid_lo(keys, lo, i),
                    kid_hi(keys, hi, i),
                    kid_end(t, children, h1, i, end),
                );
            }
        }
    }
}

/// The leftmost leaf of a tree is one of its pages.
pub proof fn first_leaf_owned<K: Key, V>(
    t: Map<u32, Node<K, V>>,
    p: u32,
    h: nat,
    lo: Option<K>,
    hi: Option<K>,
    end: u32,
)
    requires
        wf(t, p, h, lo, hi, end),
    ensures
        owns(t, p, h, first_leaf(t, p, h)),
    decreases h,
{
    if h == 0 {
        leaf_facts(t, p);
    } else {
        let h1 = (h - 1) as nat;
        wf_branch(t, p, h, h1, lo, hi, end);
        branch_facts(t, p, h, h1);
        let children = t[p]->children;
        let keys = t[p]->keys;
        assert(kid_wf(t, children, keys, h1, lo, hi, end, 0));
        first_leaf_owned(
            t,
            children[0],
            h1,
            kid_lo(keys, lo, 0),
            kid_hi(keys, hi, 0),
            kid_end(t, children, h1, 0, end),
        );
    }
}

/// Child `i` is the same in both maps, as far as the tree functions can tell.
pub open spec fn kid_same<K: Key, V>(
    t: Map<u32, Node<K, V>>,
    t2: Map<u32, Node<K, V>>,
    children: Seq<u32>,
    keys: Seq<K>,
    h: nat,
    lo: Option<K>,
    hi: Option<K>,
    end: u32,
    i: int,
) -> bool {
    &&& wf(
        t2,
        children[i],
        h,
        kid_lo(keys, lo, i),
        kid_hi(keys, hi, i),
        kid_end(t, children, h, i, end),
    )
    &&& forall|q: u32| #[trigger] owns(t2, children[i], h, q) == owns(t, children[i], h, q)
    &&& forall|k: K|
        in_range(kid_lo(keys, lo, i), kid_hi(keys, hi, i), k) ==> #[trigger] find(
            t2,
            children[i],
            h,
            k,
        ) == find(t, children[i], h, k)
    &&& first_leaf(t2, children[i], h) == first_leaf(t, children[i], h)
    &&& rows(t2, children[i], h) == rows(t, children[i], h)
    &&& leaves(t2, children[i], h) == leaves(t, children[i], h)
}

/// A tree whose pages did not change is the tree it was.
pub proof fn frame<K: Key, V>(
    t: Map<u32, Node<K, V>>,
    t2: Map<u32, Node<K, V>>,
    p: u32,
    h: nat,
    lo: Option<K>,
    hi: Option<K>,
    end: u32,
)
    requires
        wf(t, p, h, lo, hi, end),
        forall|q: u32| #[trigger] owns(t, p, h, q) ==> t2.contains_key(q) && t2[q] == t[q],
    ensures
        wf(t2, p, h, lo, hi, end),
        forall|q: u32| #[trigger] owns(t2, p, h, q) == owns(t, p, h, q),
        forall|k: K| in_range(lo, hi, k) ==> #[trigger] find(t2, p, h, k) == find(t, p, h, k),
        first_leaf(t2, p, h) == first_leaf(t, p, h),
        rows(t2, p, h) == rows(t, p, h),
        leaves(t2, p, h) == leaves(t, p, h),
    decreases h,
{
    wf_shape(t, p, h, lo, hi, end);
    if h == 0 {
        leaf_facts(t, p);
        leaf_facts(t2, p);
        assert(owns(t, p, h, p));
        wf_leaf(t, p, lo, hi, end);
        wf_leaf(t2, p, lo, hi, end);
    } else {
        let h1 = (h - 1) as nat;
        wf_branch(t, p, h, h1, lo, hi, end);
        let children = t[p]->children;
        let keys = t[p]->keys;
        assert forall|i: int| 0 <= i < children.len() implies #[trigger] kid_same(
            t,
            t2,
            children,
            keys,
            h1,
            lo,
            hi,
            end,
            i,
        ) by {
            assert(kid_wf(t, children, keys, h1, lo, hi, end, i));
            assert forall|q: u32| #[trigger] owns(t, children[i], h1, q) implies t2.contains_key(q)
                && t2[q] == t[q] by {
                assert(owns(t, p, h, q));
            }
            frame(
                t,
                t2,
                children[i],
                h1,
                kid_lo(keys, lo, i),
                kid_hi(keys, hi, i),
                kid_end(t, children, h1, i, end),
            );
        }
        frame_branch(t, t2, p, h, h1, lo, hi, end);
    }
}

proof fn frame_branch<K: Key, V>(
    t: Map<u32, Node<K, V>>,
    t2: Map<u32, Node<K, V>>,
    p: u32,
    h: nat,
    h1: nat,
    lo: Option<K>,
    hi: Option<K>,
    end: u32,
)
    requires
        h == h1 + 1,
        wf(t, p, h, lo, hi, end),
        t2.contains_key(p) && t2[p] == t[p],
        forall|i: int|
            0 <= i < t[p]->children.len() ==> #[trigger] kid_same(
                t,
                t2,
                t[p]->children,
                t[p]->keys,
                h1,
                lo,
                hi,
                end,
                i,
            ),
    ensures
        wf(t2, p, h, lo, hi, end),
        forall|q: u32| #[trigger] owns(t2, p, h, q) == owns(t, p, h, q),
        forall|k: K| in_range(lo, hi, k) ==> #[trigger] find(t2, p, h, k) == find(t, p, h, k),
        first_leaf(t2, p, h) == first_leaf(t, p, h),
        rows(t2, p, h) == rows(t, p, h),
        leaves(t2, p, h) == leaves(t, p, h),
{
    wf_branch(t, p, h, h1, lo, hi, end);
    branch_facts(t, p, h, h1);
    branch_facts(t2, p, h, h1);
    let children = t[p]->children;
    let keys = t[p]->keys;
    assert forall|i: int| 0 <= i < children.len() implies #[trigger] kid_wf(
        t2,
        children,
        keys,
        h1,
        lo,
        hi,
        end,
        i,
    ) by {
        assert(kid_same(t, t2, children, keys, h1, lo, hi, end, i));
        if i + 1 < children.len() {
            assert(kid_same(t, t2, children, keys, h1, lo, hi, end, i + 1));
        }
    }
    assert forall|q: u32, i: int| 0 <= i < children.len() implies #[trigger] owns(
        t2,
        children[i],
        h1,
        q,
    ) == owns(t, children[i], h1, q) by {
        assert(kid_same(t, t2, children, keys, h1, lo, hi, end, i));
    }
    assert forall|q: u32| #[trigger] owns(t2, p, h, q) == owns(t, p, h, q) by {
        if owns(t, p, h, q) && q != p {
            let i = choose|i: int| 0 <= i < children.len() && #[trigger] owns(t, children[i], h1, q);
            assert(owns(t2, children[i], h1, q));
        }
        if owns(t2, p, h, q) && q != p {
            let i = choose|i: int|
                0 <= i < children.len() && #[trigger] owns(t2, children[i], h1, q);
            assert(owns(t, children[i], h1, q));
        }
    }
    assert forall|k: K| in_range(lo, hi, k) implies #[trigger] find(t2, p, h, k) == find(
        t,
        p,
        h,
        k,
    ) by {
        route_spec(keys, k);
        route_in_kid(keys, k, lo, hi);
        assert(kid_same(t, t2, children, keys, h1, lo, hi, end, route(keys, k)));
    }
    assert(kid_same(t, t2, children, keys, h1, lo, hi, end, 0));
    assert forall|i: int| 0 <= i < children.len() implies rows(t2, #[trigger] children[i], h1)
        == rows(t, children[i], h1) && leaves(t2, children[i], h1) == leaves(
        t,
        children[i],
        h1,
    ) by {
        assert(kid_same(t, t2, children, keys, h1, lo, hi, end, i));
    }
    kids_agree(t, t2, children, h1);
    assert(apart(t2, children, h1));
    branch_wf(t2, p, h, h1, lo, hi, end);
}

/// Subtrees that agree one by one agree in a row.
proof fn kids_agree<K, V>(
    t: Map<u32, Node<K, V>>,
    t2: Map<u32, Node<K, V>>,
    children: Seq<u32>,
    h: nat,
)
    requires
        forall|i: int|
            0 <= i < children.len() ==> rows(t2, #[trigger] children[i], h) == rows(
                t,
                children[i],
                h,
            ) && leaves(t2, children[i], h) == leaves(t, children[i], h),
    ensures
        kids_rows(t2, children, h) == kids_rows(t, children, h),
        kids_leaves(t2, children, h) == kids_leaves(t, children, h),
    decreases children.len(),
{
    reveal(rows);
    reveal(leaves);
    reveal(kids_rows);
    reveal(kids_leaves);
    if children.len() > 0 {
        let init = children.drop_last();
        assert forall|i: int| 0 <= i < init.len() implies rows(t2, #[trigger] init[i], h) == rows(
            t,
            init[i],
            h,
        ) && leaves(t2, init[i], h) == leaves(t, init[i], h) by {
            assert(init[i] == children[i]);
        }
        kids_agree(t, t2, init, h);
        assert(children.last() == children[children.len() - 1]);
    }
}

/// A child of `p` other than the one that changed is as it was.
proof fn other_child_kept<K: Key, V>(
    t: Map<u32, Node<K, V>>,
    t2: Map<u32, Node<K, V>>,
    p: u32,
    h: nat,
    h1: nat,
    lo: Option<K>,
    hi: Option<K>,
    end: u32,
    i: int,
    j: int,
)
    requires
        h == h1 + 1,
        wf(t, p, h, lo, hi, end),
        t[p] is Branch,
        0 <= i < t[p]->children.len(),
        0 <= j < t[p]->children.len(),
        i != j,
        kept(t, t2, t[p]->children[i], h1),
    ensures
        kid_same(t, t2, t[p]->children, t[p]->keys, h1, lo, hi, end, j),
{
    wf_branch(t, p, h, h1, lo, hi, end);
    let children = t[p]->children;
    let keys = t[p]->keys;
    assert(kid_wf(t, children, keys, h1, lo, hi, end, j));
    owned_exist(
        t,
        children[j],
        h1,
        kid_lo(keys, lo, j),
        kid_hi(keys, hi, j),
        kid_end(t, children, h1, j, end),
    );
    assert forall|q: u32| #[trigger] owns(t, children[j], h1, q) implies t2.contains_key(q) && t2[q]
        == t[q] by {
        assert(!owns(t, children[i], h1, q)) by {
            if i < j {
                assert(!(owns(t, children[i], h1, q) && owns(t, children[j], h1, q)));
            } else {
                assert(!(owns(t, children[j], h1, q) && owns(t, children[i], h1, q)));
            }
        }
    }
    frame(
        t,
        t2,
        children[j],
        h1,
        kid_lo(keys, lo, j),
        kid_hi(keys, hi, j),
        kid_end(t, children, h1, j, end),
    );
}

/// A branch whose child `i` changed within its own bounds, and did not take
/// pages that others hold, is well-formed; keys routed elsewhere are untouched.
pub proof fn child_changed<K: Key, V>(
    t: Map<u32, Node<K, V>>,
    t2: Map<u32, Node<K, V>>,
    p: u32,
    h: nat,
    h1: nat,
    lo: Option<K>,
    hi: Option<K>,
    end: u32,
    i: int,
)
    requires
        h == h1 + 1,
        wf(t, p, h, lo, hi, end),
        t[p] is Branch,
        0 <= i < t[p]->children.len(),
        wf(
            t2,
            t[p]->children[i],
            h1,
            kid_lo(t[p]->keys, lo, i),
            kid_hi(t[p]->keys, hi, i),
            kid_end(t, t[p]->children, h1, i, end),
        ),
        first_leaf(t2, t[p]->children[i], h1) == first_leaf(t, t[p]->children[i], h1),
        claims(t, t2, t[p]->children[i], t[p]->children[i], h1),
        kept(t, t2, t[p]->children[i], h1),
    ensures
        wf(t2, p, h, lo, hi, end),
        t2[p] == t[p],
        first_leaf(t2, p, h) == first_leaf(t, p, h),
        claims(t, t2, p, p, h),
        kept(t, t2, p, h),
        forall|k: K|
            in_range(lo, hi, k) ==> #[trigger] find(t2, p, h, k) == if route(t[p]->keys, k) == i {
                find(t2, t[p]->children[i], h1, k)
            } else {
                find(t, p, h, k)
            },
{
    let children = t[p]->children;
    let keys = t[p]->keys;
    let c = children[i];
    wf_branch(t, p, h, h1, lo, hi, end);
    branch_facts(t, p, h, h1);
    assert(!owns(t, c, h1, p));
    assert(t2[p] == t[p]);
    branch_facts(t2, p, h, h1);
    // the other children are as they were
    assert forall|j: int| 0 <= j < children.len() && j != i implies #[trigger] kid_same(
        t,
        t2,
        children,
        keys,
        h1,
        lo,
        hi,
        end,
        j,
    ) by {
        other_child_kept(t, t2, p, h, h1, lo, hi, end, i, j);
    }
    assert forall|j: int| 0 <= j < children.len() implies #[trigger] first_leaf(
        t2,
        children[j],
        h1,
    ) == first_leaf(t, children[j], h1) by {
        if j != i {
            assert(kid_same(t, t2, children, keys, h1, lo, hi, end, j));
        }
    }
    assert forall|j: int| 0 <= j < children.len() implies #[trigger] kid_wf(
        t2,
        children,
        keys,
        h1,
        lo,
        hi,
        end,
        j,
    ) by {
        if j + 1 < children.len() {
            assert(first_leaf(t2, children[j + 1], h1) == first_leaf(t, children[j + 1], h1));
        }
        if j != i {
            assert(kid_same(t, t2, children, keys, h1, lo, hi, end, j));
        }
    }
    owned_exist(t, p, h, lo, hi, end);
    assert forall|j: int, q: u32|
        0 <= j < children.len() && #[trigger] owns(t2, children[j], h1, q) implies owns(
        t,
        children[j],
        h1,
        q,
    ) || (j == i && !t.contains_key(q)) by {
        if j != i {
            assert(kid_same(t, t2, children, keys, h1, lo, hi, end, j));
        }
    }
    assert(apart(t2, children, h1)) by {
        assert forall|a: int, b: int, q: u32| 0 <= a < b < children.len() implies !(
        #[trigger] owns(t2, children[a], h1, q) && #[trigger] owns(t2, children[b], h1, q)) by {
            if owns(t2, children[a], h1, q) && owns(t2, children[b], h1, q) {
                if owns(t, children[a], h1, q) {
                    assert(owns(t, p, h, q));
                }
                if owns(t, children[b], h1, q) {
                    assert(owns(t, p, h, q));
                }
                assert(owns(t, children[a], h1, q) && owns(t, children[b], h1, q));
            }
        }
    }
    branch_wf(t2, p, h, h1, lo, hi, end);
    assert(claims(t, t2, p, p, h)) by {
        assert forall|q: u32| #[trigger] owns(t2, p, h, q) implies owns(t, p, h, q)
            || !t.contains_key(q) by {
            if q != p {
                let j = choose|j: int|
                    0 <= j < children.len() && #[trigger] owns(t2, children[j], h1, q);
                if owns(t, children[j], h1, q) {
                    assert(owns(t, p, h, q));
                }
            }
        }
    }
    assert(kept(t, t2, p, h)) by {
        assert forall|q: u32| #[trigger] t.contains_key(q) && !owns(
            t,
            p,
            h,
            q,
        ) implies t2.contains_key(q) && t2[q] == t[q] by {
            if owns(t, c, h1, q) {
                assert(owns(t, p, h, q));
            }
        }
    }
    assert forall|k: K| in_range(lo, hi, k) implies #[trigger] find(t2, p, h, k) == if route(
        t[p]->keys,
        k,
    ) == i {
        find(t2, t[p]->children[i], h1, k)
    } else {
        find(t, p, h, k)
    } by {
        route_spec(keys, k);
        route_in_kid(keys, k, lo, hi);
        let j = route(keys, k);
        if j != i {
            assert(kid_same(t, t2, children, keys, h1, lo, hi, end, j));
        }
    }
}

/// The maps agree on every page but `p`.
pub open spec fn same_except<K, V>(
    t: Map<u32, Node<K, V>>,
    t2: Map<u32, Node<K, V>>,
    p: u32,
) -> bool {
    forall|q: u32| #[trigger] t.contains_key(q) && q != p ==> t2.contains_key(q) && t2[q] == t[q]
}

/// The tree below `p` was split: keys before `sep` are below `p`, the others
/// below `n`, and no page outside the old tree was touched.
pub open spec fn split_ok<K: Key, V>(
    t: Map<u32, Node<K, V>>,
    t2: Map<u32, Node<K, V>>,
    p: u32,
    n: u32,
    h: nat,
    lo: Option<K>,
    hi: Option<K>,
    end: u32,
    sep: K,
) -> bool {
    &&& wf(t2, p, h, lo, Some(sep), first_leaf(t2, n, h))
    &&& wf(t2, n, h, Some(sep), hi, end)
    &&& inside(lo, hi, sep)
    &&& first_leaf(t2, p, h) == first_leaf(t, p, h)
    &&& claims(t, t2, p, p, h)
    &&& claims(t, t2, p, n, h)
    &&& forall|q: u32| !(#[trigger] owns(t2, p, h, q) && #[trigger] owns(t2, n, h, q))
    &&& kept(t, t2, p, h)
}

/// What a split tree holds under `k`.
pub open spec fn split_find<K: Key, V>(
    t: Map<u32, Node<K, V>>,
    p: u32,
    n: u32,
    h: nat,
    sep: K,
    k: K,
) -> Option<V> {
    if k.before(sep) {
        find(t, p, h, k)
    } else {
        find(t, n, h, k)
    }
}

/// A leaf with new items in its range is well-formed.
pub proof fn leaf_changed<K: Key, V>(
    t: Map<u32, Node<K, V>>,
    t2: Map<u32, Node<K, V>>,
    p: u32,
    lo: Option<K>,
    hi: Option<K>,
    end: u32,
)
    requires
        wf(t, p, 0, lo, hi, end),
        t2.contains_key(p),
        t2[p] is Leaf,
        items_ok(t2[p]->items, lo, hi),
        t2[p]->next == t[p]->next,
        same_except(t, t2, p),
    ensures
        wf(t2, p, 0, lo, hi, end),
        first_leaf(t2, p, 0) == first_leaf(t, p, 0),
        claims(t, t2, p, p, 0),
        kept(t, t2, p, 0),
        forall|k: K| #[trigger] find(t2, p, 0, k) == item_find(t2[p]->items, k),
{
    wf_shape(t, p, 0, lo, hi, end);
    wf_leaf(t, p, lo, hi, end);
    wf_leaf(t2, p, lo, hi, end);
    leaf_facts(t, p);
    leaf_facts(t2, p);
}

/// A leaf split in two.
pub proof fn leaf_split<K: Key, V>(
    t: Map<u32, Node<K, V>>,
    t2: Map<u32, Node<K, V>>,
    p: u32,
    n: u32,
    lo: Option<K>,
    hi: Option<K>,
    end: u32,
    items: Seq<(K, V)>,
    mid: int,
)
    requires
        wf(t, p, 0, lo, hi, end),
        items_ok(items, lo, hi),
        0 < mid < items.len(),
        !t.contains_key(n),
        t2.contains_key(p),
        t2[p] == (Node::<K, V>::Leaf { items: items.subrange(0, mid), next: n }),
        t2.contains_key(n),
        t2[n] == (Node::<K, V>::Leaf { items: items.subrange(mid, items.len() as int), next: end }),
        same_except(t, t2, p),
    ensures
        split_ok(t, t2, p, n, 0, lo, hi, end, items[mid].0),
        forall|k: K| #[trigger]
            split_find(t2, p, n, 0, items[mid].0, k) == item_find(items, k),
{
    let sep = items[mid].0;
    wf_shape(t, p, 0, lo, hi, end);
    leaf_facts(t, p);
    leaf_facts(t2, p);
    leaf_facts(t2, n);
    let a = items.subrange(0, mid);
    let b = items.subrange(mid, items.len() as int);
    assert(inside(lo, hi, sep)) by {
        if lo is Some {
            assert(items[0].0.before(sep));
            assert(in_range(lo, hi, items[0].0));
            K::total(lo->0, items[0].0);
            if lo->0 != items[0].0 {
                K::transitive(lo->0, items[0].0, sep);
            }
        }
        assert(in_range(lo, hi, items[mid].0));
    }
    assert forall|i: int| 0 <= i < a.len() implies in_range(lo, Some(sep), (#[trigger] a[i]).0) by {
        assert(a[i] == items[i]);
        assert(items[i].0.before(items[mid].0));
    }
    assert forall|i: int, j: int| 0 <= i < j < a.len() implies (#[trigger] a[i]).0.before(
        (#[trigger] a[j]).0,
    ) by {
        assert(a[i] == items[i] && a[j] == items[j]);
    }
    assert forall|i: int| 0 <= i < b.len() implies in_range(Some(sep), hi, (#[trigger] b[i]).0) by {
        assert(b[i] == items[mid + i]);
        if i > 0 && b[i].0.before(sep) {
            assert(items[mid].0.before(items[mid + i].0));
            K::transitive(sep, b[i].0, sep);
        }
        K::irreflexive(sep);
    }
    assert forall|i: int, j: int| 0 <= i < j < b.len() implies (#[trigger] b[i]).0.before(
        (#[trigger] b[j]).0,
    ) by {
        assert(b[i] == items[mid + i] && b[j] == items[mid + j]);
    }
    wf_leaf(t2, p, lo, Some(sep), n);
    wf_leaf(t2, n, Some(sep), hi, end);
    assert forall|k: K| #[trigger] split_find(t2, p, n, 0, sep, k) == item_find(items, k) by {
        if exists|i: int| 0 <= i < items.len() && (#[trigger] items[i]).0 == k {
            let i = choose|i: int| 0 <= i < items.len() && (#[trigger] items[i]).0 == k;
            item_find_at(items, lo, hi, i);
            if i < mid {
                assert(items[i].0.before(items[mid].0));
                assert(a[i] == items[i]);
                item_find_at(a, lo, Some(sep), i);
            } else {
                if i > mid {
                    assert(items[mid].0.before(items[i].0));
                    if k.before(sep) {
                        K::transitive(k, sep, k);
                    }
                }
                K::irreflexive(k);
                assert(b[i - mid] == items[i]);
                item_find_at(b, Some(sep), hi, i - mid);
            }
        } else {
            assert forall|i: int| 0 <= i < a.len() implies (#[trigger] a[i]).0 != k by {
                assert(a[i] == items[i]);
            }
            assert forall|i: int| 0 <= i < b.len() implies (#[trigger] b[i]).0 != k by {
                assert(b[i] == items[mid + i]);
            }
        }
    }
}

/// Inserting a separator between its neighbours.
proof fn keys_insert<K: Key>(keys: Seq<K>, lo: Option<K>, hi: Option<K>, i: int, sep: K)
    requires
        keys_ok(keys, lo, hi),
        0 <= i <= keys.len(),
        inside(kid_lo(keys, lo, i), kid_hi(keys, hi, i), sep),
    ensures
        keys_ok(keys.insert(i, sep), lo, hi),
{
    let ks = keys.insert(i, sep);
    assert forall|a: int| 0 <= a < ks.len() implies inside(lo, hi, #[trigger] ks[a]) by {
        if a < i {
            assert(ks[a] == keys[a]);
        } else if a > i {
            assert(ks[a] == keys[a - 1]);
        } else {
            if i > 0 {
                assert(inside(lo, hi, keys[i - 1]));
                if lo is Some {
                    K::transitive(lo->0, keys[i - 1], sep);
                }
            }
            if i < keys.len() {
                assert(inside(lo, hi, keys[i]));
                if hi is Some {
                    K::transitive(sep, keys[i], hi->0);
                }
            }
        }
    }
    assert forall|a: int, b: int| 0 <= a < b < ks.len() implies (#[trigger] ks[a]).before(
        #[trigger] ks[b],
    ) by {
        if a < i {
            assert(ks[a] == keys[a]);
            if b < i {
                assert(ks[b] == keys[b]);
            } else if b > i {
                assert(ks[b] == keys[b - 1]);
            } else if a < i - 1 {
                K::transitive(keys[a], keys[i - 1], sep);
            }
        } else if a > i {
            assert(ks[a] == keys[a - 1] && ks[b] == keys[b - 1]);
        } else {
            assert(ks[b] == keys[b - 1]);
            if b - 1 > i {
                K::transitive(sep, keys[i], keys[b - 1]);
            }
        }
    }
}

/// Where a key goes once a separator was inserted.
proof fn route_insert<K: Key>(keys: Seq<K>, lo: Option<K>, hi: Option<K>, i: int, sep: K, k: K)
    requires
        keys_ok(keys, lo, hi),
        0 <= i <= keys.len(),
        inside(kid_lo(keys, lo, i), kid_hi(keys, hi, i), sep),
    ensures
        ({
            let r = route(keys, k);
            route(keys.insert(i, sep), k) == if r < i {
                r
            } else if r > i {
                r + 1
            } else if k.before(sep) {
                i
            } else {
                i + 1
            }
        }),
{
    let ks = keys.insert(i, sep);
    let r = route(keys, k);
    route_spec(keys, k);
    let r2 = if r < i {
        r
    } else if r > i {
        r + 1
    } else if k.before(sep) {
        i
    } else {
        i + 1
    };
    if r > i {
        // k is not before keys[i], and sep is
        assert(!k.before(keys[i]));
        if k.before(sep) {
            K::transitive(k, sep, keys[i]);
        }
    }
    assert forall|j: int| 0 <= j < r2 implies !k.before(#[trigger] ks[j]) by {
        if j < i {
            assert(ks[j] == keys[j]);
        } else if j > i {
            assert(ks[j] == keys[j - 1]);
        }
    }
    if r2 < ks.len() {
        if r2 < i {
            assert(ks[r2] == keys[r2]);
        } else if r2 > i {
            assert(ks[r2] == keys[r2 - 1]);
        }
    }
    route_unique(ks, k, r2);
}

/// A branch takes up the second half of a child that was split.
#[verifier::rlimit(30)]
pub proof fn child_split<K: Key, V>(
    t: Map<u32, Node<K, V>>,
    t2: Map<u32, Node<K, V>>,
    t3: Map<u32, Node<K, V>>,
    p: u32,
    h: nat,
    h1: nat,
    lo: Option<K>,
    hi: Option<K>,
    end: u32,
    i: int,
    n: u32,
    sep: K,
)
    requires
        h == h1 + 1,
        wf(t, p, h, lo, hi, end),
        t[p] is Branch,
        0 <= i < t[p]->children.len(),
        split_ok(
            t,
            t2,
            t[p]->children[i],
            n,
            h1,
            kid_lo(t[p]->keys, lo, i),
            kid_hi(t[p]->keys, hi, i),
            kid_end(t, t[p]->children, h1, i, end),
            sep,
        ),
        t3.contains_key(p),
        t3[p] == (Node::<K, V>::Branch {
            children: t[p]->children.insert(i + 1, n),
            keys: t[p]->keys.insert(i, sep),
        }),
        same_except(t2, t3, p),
    ensures
        wf(t3, p, h, lo, hi, end),
        first_leaf(t3, p, h) == first_leaf(t, p, h),
        claims(t, t3, p, p, h),
        kept(t, t3, p, h),
        forall|k: K|
            in_range(lo, hi, k) ==> #[trigger] find(t3, p, h, k) == if route(t[p]->keys, k) == i {
                split_find(t2, t[p]->children[i], n, h1, sep, k)
            } else {
                find(t, p, h, k)
            },
{
    let children = t[p]->children;
    let keys = t[p]->keys;
    let c = children[i];
    let cs = children.insert(i + 1, n);
    let ks = keys.insert(i, sep);
    wf_branch(t, p, h, h1, lo, hi, end);
    branch_facts(t, p, h, h1);
    branch_facts(t3, p, h, h1);
    owned_exist(t, p, h, lo, hi, end);
    keys_insert(keys, lo, hi, i, sep);
    assert(!owns(t, c, h1, p));
    assert(!owns(t2, c, h1, p) && !owns(t2, n, h1, p));
    owned_exist(t2, c, h1, kid_lo(keys, lo, i), Some(sep), first_leaf(t2, n, h1));
    owned_exist(t2, n, h1, Some(sep), kid_hi(keys, hi, i), kid_end(t, children, h1, i, end));
    // the two halves, now in t3
    frame(t2, t3, c, h1, kid_lo(keys, lo, i), Some(sep), first_leaf(t2, n, h1));
    frame(t2, t3, n, h1, Some(sep), kid_hi(keys, hi, i), kid_end(t, children, h1, i, end));
    // the other children
    assert forall|j: int| 0 <= j < children.len() && j != i implies #[trigger] kid_same(
        t,
        t3,
        children,
        keys,
        h1,
        lo,
        hi,
        end,
        j,
    ) by {
        other_child_kept_twice(t, t2, t3, p, h, h1, lo, hi, end, i, j);
    }
    assert forall|j: int| 0 <= j < children.len() implies #[trigger] first_leaf(
        t3,
        children[j],
        h1,
    ) == first_leaf(t, children[j], h1) by {
        if j != i {
            assert(kid_same(t, t3, children, keys, h1, lo, hi, end, j));
        }
    }
    assert forall|a: int| 0 <= a < cs.len() implies #[trigger] kid_wf(
        t3,
        cs,
        ks,
        h1,
        lo,
        hi,
        end,
        a,
    ) by {
        if a < i {
            assert(cs[a] == children[a] && cs[a + 1] == children[a + 1]);
            assert(kid_lo(ks, lo, a) == kid_lo(keys, lo, a));
            assert(kid_hi(ks, hi, a) == kid_hi(keys, hi, a));
            assert(kid_same(t, t3, children, keys, h1, lo, hi, end, a));
            assert(first_leaf(t3, children[a + 1], h1) == first_leaf(t, children[a + 1], h1));
        } else if a == i {
            assert(cs[a] == c && cs[a + 1] == n);
            assert(kid_lo(ks, lo, a) == kid_lo(keys, lo, i));
            assert(kid_hi(ks, hi, a) == Some(sep));
        } else if a == i + 1 {
            assert(cs[a] == n);
            assert(kid_lo(ks, lo, a) == Some(sep));
            assert(kid_hi(ks, hi, a) == kid_hi(keys, hi, i));
            if i + 1 < children.len() {
                assert(cs[a + 1] == children[i + 1]);
                assert(first_leaf(t3, children[i + 1], h1) == first_leaf(t, children[i + 1], h1));
            }
        } else {
            assert(cs[a] == children[a - 1]);
            assert(kid_lo(ks, lo, a) == kid_lo(keys, lo, a - 1));
            assert(kid_hi(ks, hi, a) == kid_hi(keys, hi, a - 1));
            assert(kid_same(t, t3, children, keys, h1, lo, hi, end, a - 1));
            if a < children.len() {
                assert(cs[a + 1] == children[a]);
                assert(first_leaf(t3, children[a], h1) == first_leaf(t, children[a], h1));
            }
        }
    }
    // who owns what
    assert forall|a: int, q: u32|
        0 <= a < cs.len() && #[trigger] owns(t3, cs[a], h1, q) implies ({
        let j = if a <= i { a } else { a - 1 };
        owns(t, children[j], h1, q) || (j == i && !t.contains_key(q))
    }) by {
        let j = if a <= i { a } else { a - 1 };
        if j != i {
            assert(kid_same(t, t3, children, keys, h1, lo, hi, end, j));
            assert(cs[a] == children[j]);
        } else if a == i {
            assert(cs[a] == c);
            assert(owns(t2, c, h1, q));
        } else {
            assert(cs[a] == n);
            assert(owns(t2, n, h1, q));
        }
    }
    assert(apart(t3, cs, h1)) by {
        assert forall|a: int, b: int, q: u32| 0 <= a < b < cs.len() implies !(#[trigger] owns(
            t3,
            cs[a],
            h1,
            q,
        ) && #[trigger] owns(t3, cs[b], h1, q)) by {
            if owns(t3, cs[a], h1, q) && owns(t3, cs[b], h1, q) {
                if a == i && b == i + 1 {
                    assert(cs[a] == c && cs[b] == n);
                    assert(owns(t2, c, h1, q) && owns(t2, n, h1, q));
                } else {
                    let j = if a <= i { a } else { a - 1 };
                    let l = if b <= i { b } else { b - 1 };
                    assert(j < l);
                    if owns(t, children[j], h1, q) {
                        assert(owns(t, p, h, q));
                    }
                    if owns(t, children[l], h1, q) {
                        assert(owns(t, p, h, q));
                    }
                    assert(owns(t, children[j], h1, q) && owns(t, children[l], h1, q));
                }
            }
        }
    }
    assert forall|a: int| 0 <= a < cs.len() implies !#[trigger] owns(t3, cs[a], h1, p) by {
        if owns(t3, cs[a], h1, p) {
            let j = if a <= i { a } else { a - 1 };
            assert(!owns(t, children[j], h1, p));
        }
    }
    branch_wf(t3, p, h, h1, lo, hi, end);
    assert(claims(t, t3, p, p, h)) by {
        assert forall|q: u32| #[trigger] owns(t3, p, h, q) implies owns(t, p, h, q)
            || !t.contains_key(q) by {
            if q != p {
                let a = choose|a: int| 0 <= a < cs.len() && #[trigger] owns(t3, cs[a], h1, q);
                let j = if a <= i { a } else { a - 1 };
                if owns(t, children[j], h1, q) {
                    assert(owns(t, p, h, q));
                }
            }
        }
    }
    assert(kept(t, t3, p, h)) by {
        assert forall|q: u32| #[trigger] t.contains_key(q) && !owns(
            t,
            p,
            h,
            q,
        ) implies t3.contains_key(q) && t3[q] == t[q] by {
            if owns(t, c, h1, q) {
                assert(owns(t, p, h, q));
            }
            assert(t2.contains_key(q) && t2[q] == t[q]);
        }
    }
    assert(cs[0] == children[0]);
    assert(first_leaf(t3, children[0], h1) == first_leaf(t, children[0], h1));
    assert forall|k: K| in_range(lo, hi, k) implies #[trigger] find(t3, p, h, k) == if route(
        keys,
        k,
    ) == i {
        split_find(t2, c, n, h1, sep, k)
    } else {
        find(t, p, h, k)
    } by {
        route_spec(keys, k);
        route_insert(keys, lo, hi, i, sep, k);
        route_in_kid(keys, k, lo, hi);
        let r = route(keys, k);
        if r != i {
            assert(kid_same(t, t3, children, keys, h1, lo, hi, end, r));
            assert(cs[if r < i { r } else { r + 1 }] == children[r]);
        } else {
            assert(cs[i] == c && cs[i + 1] == n);
        }
    }
}

/// A child of `p` other than the one that changed is as it was, also once `p`
/// itself was rewritten.
proof fn other_child_kept_twice<K: Key, V>(
    t: Map<u32, Node<K, V>>,
    t2: Map<u32, Node<K, V>>,
    t3: Map<u32, Node<K, V>>,
    p: u32,
    h: nat,
    h1: nat,
    lo: Option<K>,
    hi: Option<K>,
    end: u32,
    i: int,
    j: int,
)
    requires
        h == h1 + 1,
        wf(t, p, h, lo, hi, end),
        t[p] is Branch,
        0 <= i < t[p]->children.len(),
        0 <= j < t[p]->children.len(),
        i != j,
        kept(t, t2, t[p]->children[i], h1),
        same_except(t2, t3, p),
    ensures
        kid_same(t, t3, t[p]->children, t[p]->keys, h1, lo, hi, end, j),
{
    let children = t[p]->children;
    let keys = t[p]->keys;
    wf_branch(t, p, h, h1, lo, hi, end);
    other_child_kept(t, t2, p, h, h1, lo, hi, end, i, j);
    assert(!owns(t, children[j], h1, p));
    owned_exist(
        t2,
        children[j],
        h1,
        kid_lo(keys, lo, j),
        kid_hi(keys, hi, j),
        kid_end(t, children, h1, j, end),
    );
    frame(
        t2,
        t3,
        children[j],
        h1,
        kid_lo(keys, lo, j),
        kid_hi(keys, hi, j),
        kid_end(t, children, h1, j, end),
    );
}

/// A branch split in two. `t3` is the state with the overfull branch.
#[verifier::rlimit(30)]
pub proof fn branch_split<K: Key, V>(
    t: Map<u32, Node<K, V>>,
    t3: Map<u32, Node<K, V>>,
    t4: Map<u32, Node<K, V>>,
    p: u32,
    n: u32,
    h: nat,
    h1: nat,
    lo: Option<K>,
    hi: Option<K>,
    end: u32,
    mid: int,
)
    requires
        h == h1 + 1,
        wf(t3, p, h, lo, hi, end),
        t3[p] is Branch,
        first_leaf(t3, p, h) == first_leaf(t, p, h),
        claims(t, t3, p, p, h),
        kept(t, t3, p, h),
        0 < mid < t3[p]->keys.len() - 1,
        !t3.contains_key(n),
        !t.contains_key(n),
        t4.contains_key(p),
        t4[p] == (Node::<K, V>::Branch {
            children: t3[p]->children.subrange(0, mid + 1),
            keys: t3[p]->keys.subrange(0, mid),
        }),
        t4.contains_key(n),
        t4[n] == (Node::<K, V>::Branch {
            children: t3[p]->children.subrange(mid + 1, t3[p]->children.len() as int),
            keys: t3[p]->keys.subrange(mid + 1, t3[p]->keys.len() as int),
        }),
        same_except(t3, t4, p),
    ensures
        split_ok(t, t4, p, n, h, lo, hi, end, t3[p]->keys[mid]),
        forall|k: K|
            in_range(lo, hi, k) ==> #[trigger] split_find(t4, p, n, h, t3[p]->keys[mid], k) == find(
                t3,
                p,
                h,
                k,
            ),
{
    let children = t3[p]->children;
    let keys = t3[p]->keys;
    let sep = keys[mid];
    let ca = t4[p]->children;
    let ka = t4[p]->keys;
    let cb = t4[n]->children;
    let kb = t4[n]->keys;
    wf_branch(t3, p, h, h1, lo, hi, end);
    branch_facts(t3, p, h, h1);
    branch_facts(t4, p, h, h1);
    branch_facts(t4, n, h, h1);
    owned_exist(t3, p, h, lo, hi, end);
    assert(inside(lo, hi, keys[mid]));
    // every child is as it was
    assert forall|j: int| 0 <= j < children.len() implies #[trigger] kid_same(
        t3,
        t4,
        children,
        keys,
        h1,
        lo,
        hi,
        end,
        j,
    ) by {
        assert(kid_wf(t3, children, keys, h1, lo, hi, end, j));
        assert forall|q: u32| #[trigger] owns(t3, children[j], h1, q) implies t4.contains_key(q)
            && t4[q] == t3[q] by {
            assert(owns(t3, p, h, q));
            assert(!owns(t3, children[j], h1, p));
        }
        frame(
            t3,
            t4,
            children[j],
            h1,
            kid_lo(keys, lo, j),
            kid_hi(keys, hi, j),
            kid_end(t3, children, h1, j, end),
        );
    }
    assert forall|j: int| 0 <= j < children.len() implies #[trigger] first_leaf(
        t4,
        children[j],
        h1,
    ) == first_leaf(t3, children[j], h1) by {
        assert(kid_same(t3, t4, children, keys, h1, lo, hi, end, j));
    }
    assert forall|j: int, q: u32| 0 <= j < children.len() implies #[trigger] owns(
        t4,
        children[j],
        h1,
        q,
    ) == owns(t3, children[j], h1, q) by {
        assert(kid_same(t3, t4, children, keys, h1, lo, hi, end, j));
    }
    assert(cb[0] == children[mid + 1]);
    let fb = first_leaf(t4, n, h);
    assert(fb == first_leaf(t4, children[mid + 1], h1));
    // left half
    assert forall|a: int| 0 <= a < ca.len() implies #[trigger] kid_wf(
        t4,
        ca,
        ka,
        h1,
        lo,
        Some(sep),
        fb,
        a,
    ) by {
        assert(ca[a] == children[a]);
        assert(kid_lo(ka, lo, a) == kid_lo(keys, lo, a));
        assert(kid_hi(ka, Some(sep), a) == kid_hi(keys, hi, a));
        assert(kid_same(t3, t4, children, keys, h1, lo, hi, end, a));
        assert(first_leaf(t4, children[a + 1], h1) == first_leaf(t3, children[a + 1], h1));
        if a + 1 < ca.len() {
            assert(ca[a + 1] == children[a + 1]);
        }
    }
    assert(keys_ok(ka, lo, Some(sep))) by {
        assert forall|a: int| 0 <= a < ka.len() implies inside(lo, Some(sep), #[trigger] ka[a]) by {
            assert(ka[a] == keys[a]);
            assert(inside(lo, hi, keys[a]));
            assert(keys[a].before(keys[mid]));
        }
        assert forall|a: int, b: int| 0 <= a < b < ka.len() implies (#[trigger] ka[a]).before(
            #[trigger] ka[b],
        ) by {
            assert(ka[a] == keys[a] && ka[b] == keys[b]);
        }
    }
    assert forall|a: int| 0 <= a < ca.len() implies !#[trigger] owns(t4, ca[a], h1, p) by {
        assert(ca[a] == children[a]);
        assert(!owns(t3, children[a], h1, p));
    }
    assert(apart(t4, ca, h1)) by {
        assert forall|a: int, b: int, q: u32| 0 <= a < b < ca.len() implies !(#[trigger] owns(
            t4,
            ca[a],
            h1,
            q,
        ) && #[trigger] owns(t4, ca[b], h1, q)) by {
            assert(ca[a] == children[a] && ca[b] == children[b]);
            assert(!(owns(t3, children[a], h1, q) && owns(t3, children[b], h1, q)));
        }
    }
    branch_wf(t4, p, h, h1, lo, Some(sep), fb);
    // right half
    assert forall|a: int| 0 <= a < cb.len() implies #[trigger] kid_wf(
        t4,
        cb,
        kb,
        h1,
        Some(sep),
        hi,
        end,
        a,
    ) by {
        let j = mid + 1 + a;
        assert(cb[a] == children[j]);
        assert(kid_lo(kb, Some(sep), a) == kid_lo(keys, lo, j));
        assert(kid_hi(kb, hi, a) == kid_hi(keys, hi, j));
        assert(kid_same(t3, t4, children, keys, h1, lo, hi, end, j));
        if a + 1 < cb.len() {
            assert(cb[a + 1] == children[j + 1]);
            assert(first_leaf(t4, children[j + 1], h1) == first_leaf(t3, children[j + 1], h1));
        }
    }
    assert(keys_ok(kb, Some(sep), hi)) by {
        assert forall|a: int| 0 <= a < kb.len() implies inside(Some(sep), hi, #[trigger] kb[a]) by {
            assert(kb[a] == keys[mid + 1 + a]);
            assert(inside(lo, hi, keys[mid + 1 + a]));
            assert(keys[mid].before(keys[mid + 1 + a]));
        }
        assert forall|a: int, b: int| 0 <= a < b < kb.len() implies (#[trigger] kb[a]).before(
            #[trigger] kb[b],
        ) by {
            assert(kb[a] == keys[mid + 1 + a] && kb[b] == keys[mid + 1 + b]);
        }
    }
    assert forall|a: int| 0 <= a < cb.len() implies !#[trigger] owns(t4, cb[a], h1, n) by {
        assert(cb[a] == children[mid + 1 + a]);
        if owns(t3, children[mid + 1 + a], h1, n) {
            assert(owns(t3, p, h, n));
        }
    }
    assert(apart(t4, cb, h1)) by {
        assert forall|a: int, b: int, q: u32| 0 <= a < b < cb.len() implies !(#[trigger] owns(
            t4,
            cb[a],
            h1,
            q,
        ) && #[trigger] owns(t4, cb[b], h1, q)) by {
            assert(cb[a] == children[mid + 1 + a] && cb[b] == children[mid + 1 + b]);
            assert(!(owns(t3, children[mid + 1 + a], h1, q) && owns(
                t3,
                children[mid + 1 + b],
                h1,
                q,
            )));
        }
    }
    branch_wf(t4, n, h, h1, Some(sep), hi, end);
    // who owns what
    assert forall|q: u32| #[trigger] owns(t4, p, h, q) implies q == p || exists|a: int|
        0 <= a <= mid && #[trigger] owns(t3, children[a], h1, q) by {
        if q != p {
            let a = choose|a: int| 0 <= a < ca.len() && #[trigger] owns(t4, ca[a], h1, q);
            assert(ca[a] == children[a]);
            assert(owns(t3, children[a], h1, q));
        }
    }
    assert forall|q: u32| #[trigger] owns(t4, n, h, q) implies q == n || exists|a: int|
        mid < a < children.len() && #[trigger] owns(t3, children[a], h1, q) by {
        if q != n {
            let a = choose|a: int| 0 <= a < cb.len() && #[trigger] owns(t4, cb[a], h1, q);
            assert(cb[a] == children[mid + 1 + a]);
            assert(owns(t3, children[mid + 1 + a], h1, q));
        }
    }
    assert forall|q: u32| !(#[trigger] owns(t4, p, h, q) && #[trigger] owns(t4, n, h, q)) by {
        if owns(t4, p, h, q) && owns(t4, n, h, q) {
            if q == p {
                let a = choose|a: int|
                    mid < a < children.len() && #[trigger] owns(t3, children[a], h1, q);
                assert(!owns(t3, children[a], h1, p));
            } else if q == n {
                assert(owns(t3, p, h, q));
            } else {
                let a = choose|a: int| 0 <= a <= mid && #[trigger] owns(t3, children[a], h1, q);
                let b = choose|b: int|
                    mid < b < children.len() && #[trigger] owns(t3, children[b], h1, q);
                assert(!(owns(t3, children[a], h1, q) && owns(t3, children[b], h1, q)));
            }
        }
    }
    assert(claims(t, t4, p, p, h)) by {
        assert forall|q: u32| #[trigger] owns(t4, p, h, q) implies owns(t, p, h, q)
            || !t.contains_key(q) by {
            assert(owns(t3, p, h, q));
        }
    }
    assert(claims(t, t4, p, n, h)) by {
        assert forall|q: u32| #[trigger] owns(t4, n, h, q) implies owns(t, p, h, q)
            || !t.contains_key(q) by {
            if q != n {
                assert(owns(t3, p, h, q));
            }
        }
    }
    assert(ca[0] == children[0]);
    assert(first_leaf(t4, children[0], h1) == first_leaf(t3, children[0], h1));
    assert(kept(t, t4, p, h)) by {
        assert forall|q: u32| #[trigger] t.contains_key(q) && !owns(
            t,
            p,
            h,
            q,
        ) implies t4.contains_key(q) && t4[q] == t[q] by {
            assert(t3.contains_key(q) && t3[q] == t[q]);
            if q == p {
                reveal(owns);
            }
        }
    }
    assert forall|k: K| in_range(lo, hi, k) implies #[trigger] split_find(t4, p, n, h, sep, k)
        == find(t3, p, h, k) by {
        route_spec(keys, k);
        route_in_kid(keys, k, lo, hi);
        let r = route(keys, k);
        assert(kid_same(t3, t4, children, keys, h1, lo, hi, end, r));
        if k.before(sep) {
            assert(r <= mid);
            assert forall|j: int| 0 <= j < r implies !k.before(#[trigger] ka[j]) by {
                assert(ka[j] == keys[j]);
            }
            if r < ka.len() {
                assert(ka[r] == keys[r]);
            }
            route_unique(ka, k, r);
            assert(ca[r] == children[r]);
        } else {
            if r <= mid {
                if r < mid {
                    assert(keys[r].before(keys[mid]));
                    K::transitive(k, keys[r], keys[mid]);
                }
            }
            let r2 = r - mid - 1;
            assert forall|j: int| 0 <= j < r2 implies !k.before(#[trigger] kb[j]) by {
                assert(kb[j] == keys[mid + 1 + j]);
            }
            if r2 < kb.len() {
                assert(kb[r2] == keys[r]);
            }
            route_unique(kb, k, r2);
            assert(cb[r2] == children[r]);
        }
    }
}

/// A new root above the halves of a split tree.
pub proof fn root_grown<K: Key, V>(
    t: Map<u32, Node<K, V>>,
    t2: Map<u32, Node<K, V>>,
    t3: Map<u32, Node<K, V>>,
    p: u32,
    n: u32,
    r: u32,
    h: nat,
    h1: nat,
    sep: K,
)
    requires
        h == h1 + 1,
        split_ok(t, t2, p, n, h1, None, None, 0, sep),
        !t2.contains_key(r),
        !t.contains_key(r),
        t3.contains_key(r),
        t3[r] == (Node::<K, V>::Branch { children: seq![p, n], keys: seq![sep] }),
        same_except(t2, t3, r),
    ensures
        wf(t3, r, h, None, None, 0),
        forall|q: u32| #[trigger]
            owns(t3, r, h, q) ==> owns(t, p, h1, q) || !t.contains_key(q),
        kept(t, t3, p, h1),
        forall|k: K| #[trigger] find(t3, r, h, k) == split_find(t2, p, n, h1, sep, k),
{
    let cs = seq![p, n];
    let ks = seq![sep];
    let none: Option<K> = None;
    branch_facts(t3, r, h, h1);
    owned_exist(t2, p, h1, none, Some(sep), first_leaf(t2, n, h1));
    owned_exist(t2, n, h1, Some(sep), none, 0);
    frame(t2, t3, p, h1, none, Some(sep), first_leaf(t2, n, h1));
    frame(t2, t3, n, h1, Some(sep), none, 0);
    assert(t3[r]->children[0] == p && t3[r]->children[1] == n);
    assert forall|i: int| 0 <= i < cs.len() implies #[trigger] kid_wf(
        t3,
        cs,
        ks,
        h1,
        none,
        none,
        0,
        i,
    ) by {
        if i == 0 {
            assert(cs[0] == p && cs[1] == n);
        } else {
            assert(cs[1] == n);
        }
    }
    assert forall|i: int| 0 <= i < cs.len() implies !#[trigger] owns(t3, cs[i], h1, r) by {
        if i == 0 {
            assert(cs[0] == p);
        } else {
            assert(cs[1] == n);
        }
    }
    assert(apart(t3, cs, h1)) by {
        assert forall|a: int, b: int, q: u32| 0 <= a < b < cs.len() implies !(#[trigger] owns(
            t3,
            cs[a],
            h1,
            q,
        ) && #[trigger] owns(t3, cs[b], h1, q)) by {
            assert(cs[a] == p && cs[b] == n);
            assert(!(owns(t2, p, h1, q) && owns(t2, n, h1, q)));
        }
    }
    branch_wf(t3, r, h, h1, none, none, 0);
    assert forall|q: u32| #[trigger] owns(t3, r, h, q) implies owns(t, p, h1, q)
        || !t.contains_key(q) by {
        if q != r {
            let i = choose|i: int| 0 <= i < cs.len() && #[trigger] owns(t3, cs[i], h1, q);
            if i == 0 {
                assert(cs[i] == p);
                assert(owns(t2, p, h1, q));
            } else {
                assert(cs[i] == n);
                assert(owns(t2, n, h1, q));
            }
        }
    }
    assert forall|k: K| #[trigger] find(t3, r, h, k) == split_find(t2, p, n, h1, sep, k) by {
        if k.before(sep) {
            route_unique(ks, k, 0);
        } else {
            route_unique(ks, k, 1);
        }
    }
}

// ---------------------------------------------------------------------------
// The items of a tree in order
// ---------------------------------------------------------------------------

/// Items below a separator followed by items above it.
proof fn items_concat<K: Key, V>(
    a: Seq<(K, V)>,
    b: Seq<(K, V)>,
    lo: Option<K>,
    s: K,
    hi: Option<K>,
)
    requires
        items_ok(a, lo, Some(s)),
        items_ok(b, Some(s), hi),
        inside(lo, hi, s),
    ensures
        items_ok(a + b, lo, hi),
        forall|k: K| #[trigger]
            item_find(a + b, k) == if k.before(s) {
                item_find(a, k)
            } else {
                item_find(b, k)
            },
{
    let c = a + b;
    assert forall|i: int| 0 <= i < c.len() implies in_range(lo, hi, (#[trigger] c[i]).0) by {
        let k = c[i].0;
        if i < a.len() {
            assert(c[i] == a[i]);
            assert(in_range(lo, Some(s), a[i].0));
            if hi is Some {
                K::transitive(k, s, hi->0);
            }
        } else {
            assert(c[i] == b[i - a.len()]);
            assert(in_range(Some(s), hi, b[i - a.len()].0));
            if lo is Some && k.before(lo->0) {
                K::transitive(k, lo->0, s);
            }
        }
    }
    assert forall|i: int, j: int| 0 <= i < j < c.len() implies (#[trigger] c[i]).0.before(
        (#[trigger] c[j]).0,
    ) by {
        if j < a.len() {
            assert(c[i] == a[i] && c[j] == a[j]);
        } else if i >= a.len() {
            assert(c[i] == b[i - a.len()] && c[j] == b[j - a.len()]);
        } else {
            assert(c[i] == a[i] && c[j] == b[j - a.len()]);
            assert(in_range(lo, Some(s), a[i].0));
            assert(in_range(Some(s), hi, b[j - a.len()].0));
            K::total(s, c[j].0);
            if s != c[j].0 {
                K::transitive(c[i].0, s, c[j].0);
            }
        }
    }
    assert forall|k: K| #[trigger]
        item_find(c, k) == if k.before(s) {
            item_find(a, k)
        } else {
            item_find(b, k)
        } by {
        if exists|i: int| 0 <= i < c.len() && (#[trigger] c[i]).0 == k {
            let i = choose|i: int| 0 <= i < c.len() && (#[trigger] c[i]).0 == k;
            item_find_at(c, lo, hi, i);
            if i < a.len() {
                assert(c[i] == a[i]);
                assert(in_range(lo, Some(s), a[i].0));
                item_find_at(a, lo, Some(s), i);
            } else {
                assert(c[i] == b[i - a.len()]);
                assert(in_range(Some(s), hi, b[i - a.len()].0));
                item_find_at(b, Some(s), hi, i - a.len());
            }
        } else {
            assert forall|i: int| 0 <= i < a.len() implies (#[trigger] a[i]).0 != k by {
                assert(c[i] == a[i]);
            }
            assert forall|i: int| 0 <= i < b.len() implies (#[trigger] b[i]).0 != k by {
                assert(c[i + a.len()] == b[i]);
            }
        }
    }
}

/// The upper bound of the first `m` children.
spec fn prefix_hi<K>(keys: Seq<K>, hi: Option<K>, m: int) -> Option<K> {
    kid_hi(keys, hi, m - 1)
}

/// The items of a well-formed tree ascend, and looking a key up finds the item
/// that has it.
pub proof fn rows_sorted<K: Key, V>(
    t: Map<u32, Node<K, V>>,
    p: u32,
    h: nat,
    lo: Option<K>,
    hi: Option<K>,
    end: u32,
)
    requires
        wf(t, p, h, lo, hi, end),
    ensures
        items_ok(rows(t, p, h), lo, hi),
        forall|k: K|
            in_range(lo, hi, k) ==> #[trigger] find(t, p, h, k) == item_find(rows(t, p, h), k),
    decreases h, 0nat,
{
    wf_shape(t, p, h, lo, hi, end);
    if h == 0 {
        leaf_facts(t, p);
        wf_leaf(t, p, lo, hi, end);
    } else {
        let h1 = (h - 1) as nat;
        wf_branch(t, p, h, h1, lo, hi, end);
        branch_facts(t, p, h, h1);
        let children = t[p]->children;
        let keys = t[p]->keys;
        kids_sorted(t, p, h, h1, lo, hi, end, children.len() as int);
        assert(children.take(children.len() as int) =~= children);
        assert forall|k: K| in_range(lo, hi, k) implies #[trigger] find(t, p, h, k) == item_find(
            rows(t, p, h),
            k,
        ) by {
            route_spec(keys, k);
        }
    }
}

proof fn kids_sorted<K: Key, V>(
    t: Map<u32, Node<K, V>>,
    p: u32,
    h: nat,
    h1: nat,
    lo: Option<K>,
    hi: Option<K>,
    end: u32,
    m: int,
)
    requires
        h == h1 + 1,
        wf(t, p, h, lo, hi, end),
        t[p] is Branch,
        1 <= m <= t[p]->children.len(),
    ensures
        items_ok(
            kids_rows(t, t[p]->children.take(m), h1),
            lo,
            prefix_hi(t[p]->keys, hi, m),
        ),
        forall|k: K|
            in_range(lo, hi, k) && route(t[p]->keys, k) < m ==> #[trigger] item_find(
                kids_rows(t, t[p]->children.take(m), h1),
                k,
            ) == find(t, t[p]->children[route(t[p]->keys, k)], h1, k),
    decreases h1, m,
{
    let children = t[p]->children;
    let keys = t[p]->keys;
    wf_branch(t, p, h, h1, lo, hi, end);
    let last = m - 1;
    let pre = children.take(m);
    assert(pre.drop_last() =~= children.take(last));
    assert(pre.last() == children[last]);
    assert(kid_wf(t, children, keys, h1, lo, hi, end, last));
    rows_sorted(
        t,
        children[last],
        h1,
        kid_lo(keys, lo, last),
        kid_hi(keys, hi, last),
        kid_end(t, children, h1, last, end),
    );
    let b = rows(t, children[last], h1);
    let a = kids_rows(t, children.take(last), h1);
    assert(kids_rows(t, pre, h1) == a + b) by {
        reveal(kids_rows);
        reveal(rows);
    }
    if last == 0 {
        assert(a =~= Seq::empty()) by {
            reveal(kids_rows);
            reveal(rows);
        }
        assert(a + b =~= b);
    } else {
        kids_sorted(t, p, h, h1, lo, hi, end, last);
        let s = keys[last - 1];
        assert(inside(lo, hi, s));
        if last < keys.len() {
            assert(keys[last - 1].before(keys[last]));
        }
        items_concat(a, b, lo, s, kid_hi(keys, hi, last));
    }
    assert forall|k: K| in_range(lo, hi, k) && route(keys, k) < m implies #[trigger] item_find(
        kids_rows(t, pre, h1),
        k,
    ) == find(t, children[route(keys, k)], h1, k) by {
        route_spec(keys, k);
        route_in_kid(keys, k, lo, hi);
        let r = route(keys, k);
        if last > 0 {
            if r < last {
                assert(k.before(keys[r]));
                if r < last - 1 {
                    K::transitive(k, keys[r], keys[last - 1]);
                }
            } else {
                assert(!k.before(keys[last - 1]));
            }
        }
    }
}

/// The items of the given leaves, one after another.
pub open spec fn leaf_rows<K, V>(t: Map<u32, Node<K, V>>, ls: Seq<u32>) -> Seq<(K, V)>
    decreases ls.len(),
{
    if ls.len() == 0 {
        Seq::empty()
    } else {
        leaf_rows(t, ls.drop_last()) + t[ls.last()]->items
    }
}

proof fn leaf_rows_concat<K, V>(t: Map<u32, Node<K, V>>, a: Seq<u32>, b: Seq<u32>)
    ensures
        leaf_rows(t, a + b) == leaf_rows(t, a) + leaf_rows(t, b),
    decreases b.len(),
{
    if b.len() == 0 {
        assert(a + b =~= a);
        assert(leaf_rows(t, a) + leaf_rows(t, b) =~= leaf_rows(t, a));
    } else {
        let c = a + b;
        assert(c.drop_last() =~= a + b.drop_last());
        assert(c.last() == b.last());
        leaf_rows_concat(t, a, b.drop_last());
        assert(leaf_rows(t, a) + leaf_rows(t, b) =~= (leaf_rows(t, a) + leaf_rows(
            t,
            b.drop_last(),
        )) + t[b.last()]->items);
    }
}

/// Leaf `i` points to the next one, the last one to `end`.
pub open spec fn linked<K, V>(t: Map<u32, Node<K, V>>, ls: Seq<u32>, end: u32, i: int) -> bool {
    &&& t.contains_key(ls[i])
    &&& t[ls[i]] is Leaf
    &&& t[ls[i]]->next == if i + 1 < ls.len() {
        ls[i + 1]
    } else {
        end
    }
}

/// Leaves that are chained from left to right, the last one pointing to `end`.
pub open spec fn chained<K, V>(t: Map<u32, Node<K, V>>, ls: Seq<u32>, end: u32) -> bool {
    forall|i: int| 0 <= i < ls.len() ==> #[trigger] linked(t, ls, end, i)
}

/// The leaves of a well-formed tree are distinct pages of it, chained in order,
/// and hold all of its items.
pub proof fn leaves_chained<K: Key, V>(
    t: Map<u32, Node<K, V>>,
    p: u32,
    h: nat,
    lo: Option<K>,
    hi: Option<K>,
    end: u32,
)
    requires
        wf(t, p, h, lo, hi, end),
    ensures
        leaves(t, p, h).len() > 0,
        leaves(t, p, h)[0] == first_leaf(t, p, h),
        chained(t, leaves(t, p, h), end),
        forall|i: int| 0 <= i < leaves(t, p, h).len() ==> owns(t, p, h, #[trigger] leaves(t, p, h)[i]),
        leaves(t, p, h).no_duplicates(),
        leaf_rows(t, leaves(t, p, h)) == rows(t, p, h),
    decreases h, 0nat,
{
    wf_shape(t, p, h, lo, hi, end);
    if h == 0 {
        leaf_facts(t, p);
        wf_leaf(t, p, lo, hi, end);
        let ls = seq![p];
        assert(ls.drop_last() =~= Seq::empty());
        assert(leaf_rows(t, ls) =~= t[p]->items) by {
            reveal_with_fuel(leaf_rows, 2);
        }
    } else {
        let h1 = (h - 1) as nat;
        wf_branch(t, p, h, h1, lo, hi, end);
        branch_facts(t, p, h, h1);
        let children = t[p]->children;
        kids_chained(t, p, h, h1, lo, hi, end, children.len() as int);
        assert(children.take(children.len() as int) =~= children);
        let ls = leaves(t, p, h);
        assert forall|i: int| 0 <= i < ls.len() implies owns(t, p, h, #[trigger] ls[i]) by {
            assert(kid_has(t, children, h1, children.len() as int, ls[i]));
            let j = choose|j: int|
                0 <= j < children.len() && #[trigger] owns(t, children[j], h1, ls[i]);
            assert(owns(t, children[j], h1, ls[i]));
        }
    }
}

/// Page `q` belongs to one of the first `m` children.
spec fn kid_has<K, V>(
    t: Map<u32, Node<K, V>>,
    children: Seq<u32>,
    h: nat,
    m: int,
    q: u32,
) -> bool {
    exists|j: int| 0 <= j < m && #[trigger] owns(t, children[j], h, q)
}

proof fn chain_concat<K, V>(t: Map<u32, Node<K, V>>, a: Seq<u32>, b: Seq<u32>, end: u32)
    requires
        b.len() > 0,
        chained(t, a, b[0]),
        chained(t, b, end),
    ensures
        chained(t, a + b, end),
{
    let ls = a + b;
    assert forall|i: int| 0 <= i < ls.len() implies #[trigger] linked(t, ls, end, i) by {
        if i < a.len() {
            assert(linked(t, a, b[0], i));
            assert(ls[i] == a[i]);
            if i + 1 < a.len() {
                assert(ls[i + 1] == a[i + 1]);
            } else {
                assert(ls[i + 1] == b[0]);
            }
        } else {
            assert(linked(t, b, end, i - a.len()));
            assert(ls[i] == b[i - a.len()]);
            if i + 1 < ls.len() {
                assert(ls[i + 1] == b[i + 1 - a.len()]);
            }
        }
    }
}

proof fn kids_chained<K: Key, V>(
    t: Map<u32, Node<K, V>>,
    p: u32,
    h: nat,
    h1: nat,
    lo: Option<K>,
    hi: Option<K>,
    end: u32,
    m: int,
)
    requires
        h == h1 + 1,
        wf(t, p, h, lo, hi, end),
        t[p] is Branch,
        1 <= m <= t[p]->children.len(),
    ensures
        ({
            let children = t[p]->children;
            let ls = kids_leaves(t, children.take(m), h1);
            &&& ls.len() > 0
            &&& ls[0] == first_leaf(t, children[0], h1)
            &&& chained(t, ls, kid_end(t, children, h1, m - 1, end))
            &&& forall|i: int|
                0 <= i < ls.len() ==> kid_has(t, children, h1, m, #[trigger] ls[i])
            &&& ls.no_duplicates()
            &&& leaf_rows(t, ls) == kids_rows(t, children.take(m), h1)
        }),
    decreases h1, m,
{
    let children = t[p]->children;
    let keys = t[p]->keys;
    wf_branch(t, p, h, h1, lo, hi, end);
    let last = m - 1;
    let pre = children.take(m);
    assert(pre.drop_last() =~= children.take(last));
    assert(pre.last() == children[last]);
    assert(kid_wf(t, children, keys, h1, lo, hi, end, last));
    leaves_chained(
        t,
        children[last],
        h1,
        kid_lo(keys, lo, last),
        kid_hi(keys, hi, last),
        kid_end(t, children, h1, last, end),
    );
    let b = leaves(t, children[last], h1);
    let a = kids_leaves(t, children.take(last), h1);
    let ls = kids_leaves(t, pre, h1);
    let ra = kids_rows(t, children.take(last), h1);
    assert(ls == a + b && kids_rows(t, pre, h1) == ra + rows(t, children[last], h1)) by {
        reveal(kids_leaves);
        reveal(leaves);
        reveal(kids_rows);
        reveal(rows);
    }
    if last == 0 {
        assert(a =~= Seq::empty() && ra =~= Seq::empty()) by {
            reveal(kids_leaves);
            reveal(leaves);
            reveal(kids_rows);
            reveal(rows);
        }
        assert(a + b =~= b);
        assert(ra + rows(t, children[last], h1) =~= rows(t, children[last], h1));
        assert forall|i: int| 0 <= i < ls.len() implies kid_has(
            t,
            children,
            h1,
            m,
            #[trigger] ls[i],
        ) by {
            assert(owns(t, children[0], h1, b[i]));
        }
    } else {
        kids_chained(t, p, h, h1, lo, hi, end, last);
        leaf_rows_concat(t, a, b);
        assert(ls[0] == a[0]);
        assert forall|i: int| 0 <= i < ls.len() implies kid_has(
            t,
            children,
            h1,
            m,
            #[trigger] ls[i],
        ) by {
            if i < a.len() {
                assert(ls[i] == a[i]);
                assert(kid_has(t, children, h1, last, a[i]));
                let j = choose|j: int| 0 <= j < last && #[trigger] owns(t, children[j], h1, a[i]);
                assert(owns(t, children[j], h1, ls[i]));
            } else {
                assert(ls[i] == b[i - a.len()]);
                assert(owns(t, children[last], h1, ls[i]));
            }
        }
        assert(ls.no_duplicates()) by {
            assert forall|i: int, j: int| 0 <= i < j < ls.len() implies ls[i] != ls[j] by {
                if j < a.len() {
                    assert(ls[i] == a[i] && ls[j] == a[j]);
                } else if i >= a.len() {
                    assert(ls[i] == b[i - a.len()] && ls[j] == b[j - a.len()]);
                } else {
                    assert(ls[i] == a[i] && ls[j] == b[j - a.len()]);
                    assert(kid_has(t, children, h1, last, a[i]));
                    let c = choose|c: int|
                        0 <= c < last && #[trigger] owns(t, children[c], h1, a[i]);
                    assert(owns(t, children[c], h1, ls[i]));
                    assert(owns(t, children[last], h1, b[j - a.len()]));
                    assert(!(owns(t, children[c], h1, ls[i]) && owns(t, children[last], h1, ls[i])));
                }
            }
        }
        assert(kid_end(t, children, h1, last - 1, end) == first_leaf(t, children[last], h1));
        chain_concat(t, a, b, kid_end(t, children, h1, last, end));
    }
}

// ---------------------------------------------------------------------------
// Whole trees
// ---------------------------------------------------------------------------

/// `root` is the root of a tree of height `h`. Page 0 can be its first leaf only,
/// since a leaf that points to page 0 is the last one.
pub open spec fn is_root<K: Key, V>(t: Map<u32, Node<K, V>>, root: u32, h: nat) -> bool {
    &&& wf(t, root, h, None, None, 0)
    &&& owns(t, root, h, 0) ==> first_leaf(t, root, h) == 0
}

/// `root` is the root of a tree.
pub open spec fn is_tree<K: Key, V>(t: Map<u32, Node<K, V>>, root: u32) -> bool {
    exists|h: nat| is_root(t, root, h)
}

/// `h` doublings of one.
pub open spec fn doubled(h: nat) -> nat
    decreases h,
{
    if h == 0 {
        1
    } else {
        2 * doubled((h - 1) as nat)
    }
}

proof fn doubled_grows(h: nat, g: nat)
    requires
        h <= g,
    ensures
        doubled(h) <= doubled(g),
    decreases g,
{
    if h < g {
        doubled_grows(h, (g - 1) as nat);
    }
}

/// The nodes of a tree as numbers.
spec fn nodes_of<K, V>(t: Map<u32, Node<K, V>>, p: u32, h: nat) -> Set<int> {
    vstd::set_lib::set_int_range(0, 0x1_0000_0000).filter(|q: int| owns(t, p, h, q as u32))
}

proof fn nodes_double<K: Key, V>(
    t: Map<u32, Node<K, V>>,
    p: u32,
    h: nat,
    lo: Option<K>,
    hi: Option<K>,
    end: u32,
)
    requires
        wf(t, p, h, lo, hi, end),
    ensures
        nodes_of(t, p, h).finite(),
        nodes_of(t, p, h).len() >= doubled(h),
    decreases h,
{
    let all = vstd::set_lib::set_int_range(0, 0x1_0000_0000);
    vstd::set_lib::lemma_int_range(0, 0x1_0000_0000);
    let mine = nodes_of(t, p, h);
    vstd::set_lib::lemma_len_subset(mine, all);
    wf_shape(t, p, h, lo, hi, end);
    if h == 0 {
        reveal(owns);
        assert(mine.contains(p as int));
        vstd::set_lib::lemma_len_subset(set![p as int], mine);
    } else {
        let h1 = (h - 1) as nat;
        wf_branch(t, p, h, h1, lo, hi, end);
        let cs = t[p]->children;
        let ks = t[p]->keys;
        let a = nodes_of(t, cs[0], h1);
        let b = nodes_of(t, cs[1], h1);
        assert(kid_wf(t, cs, ks, h1, lo, hi, end, 0));
        assert(kid_wf(t, cs, ks, h1, lo, hi, end, 1));
        nodes_double(t, cs[0], h1, kid_lo(ks, lo, 0), kid_hi(ks, hi, 0), kid_end(t, cs, h1, 0, end));
        nodes_double(t, cs[1], h1, kid_lo(ks, lo, 1), kid_hi(ks, hi, 1), kid_end(t, cs, h1, 1, end));
        assert(a.disjoint(b)) by {
            assert forall|q: int| a.contains(q) implies !b.contains(q) by {
                assert(!(owns(t, cs[0], h1, q as u32) && owns(t, cs[1], h1, q as u32)));
            }
        }
        vstd::set_lib::lemma_set_disjoint_lens(a, b);
        assert((a + b).subset_of(mine)) by {
            reveal(owns);
            assert forall|q: int| (a + b).contains(q) implies mine.contains(q) by {
                assert(owns(t, cs[0], h1, q as u32) || owns(t, cs[1], h1, q as u32));
            }
        }
        vstd::set_lib::lemma_len_subset(a + b, mine);
    }
}

/// A tree is at most 32 branches high: there are no more pages than that.
pub proof fn height_bounded<K: Key, V>(
    t: Map<u32, Node<K, V>>,
    p: u32,
    h: nat,
    lo: Option<K>,
    hi: Option<K>,
    end: u32,
)
    requires
        wf(t, p, h, lo, hi, end),
    ensures
        h <= 32,
{
    nodes_double(t, p, h, lo, hi, end);
    let all = vstd::set_lib::set_int_range(0, 0x1_0000_0000);
    vstd::set_lib::lemma_int_range(0, 0x1_0000_0000);
    vstd::set_lib::lemma_len_subset(nodes_of(t, p, h), all);
    if h > 32 {
        doubled_grows(33, h);
        assert(doubled(33) == 0x2_0000_0000) by {
            reveal_with_fuel(doubled, 34);
        }
    }
}

/// The number of branches above each leaf.
pub open spec fn height<K: Key, V>(t: Map<u32, Node<K, V>>, root: u32) -> nat {
    choose|h: nat| is_root(t, root, h)
}

/// The value that a tree holds under `k`.
pub open spec fn get<K: Key, V>(t: Map<u32, Node<K, V>>, root: u32, k: K) -> Option<V> {
    find(t, root, height(t, root), k)
}

/// All items of a tree, in ascending order of their keys.
pub open spec fn all<K: Key, V>(t: Map<u32, Node<K, V>>, root: u32) -> Seq<(K, V)> {
    rows(t, root, height(t, root))
}

/// Page `q` is a node of the tree.
pub open spec fn has<K: Key, V>(t: Map<u32, Node<K, V>>, root: u32, q: u32) -> bool {
    owns(t, root, height(t, root), q)
}

proof fn same_height<K: Key, V>(
    t: Map<u32, Node<K, V>>,
    p: u32,
    h: nat,
    g: nat,
    lo: Option<K>,
    hi: Option<K>,
    end: u32,
    lo2: Option<K>,
    hi2: Option<K>,
    end2: u32,
)
    requires
        wf(t, p, h, lo, hi, end),
        wf(t, p, g, lo2, hi2, end2),
    ensures
        h == g,
    decreases h,
{
    wf_shape(t, p, h, lo, hi, end);
    wf_shape(t, p, g, lo2, hi2, end2);
    if h > 0 {
        let h1 = (h - 1) as nat;
        let g1 = (g - 1) as nat;
        wf_branch(t, p, h, h1, lo, hi, end);
        wf_branch(t, p, g, g1, lo2, hi2, end2);
        let c = t[p]->children;
        let k = t[p]->keys;
        assert(kid_wf(t, c, k, h1, lo, hi, end, 0));
        assert(kid_wf(t, c, k, g1, lo2, hi2, end2, 0));
        same_height(
            t,
            c[0],
            h1,
            g1,
            kid_lo(k, lo, 0),
            kid_hi(k, hi, 0),
            kid_end(t, c, h1, 0, end),
            kid_lo(k, lo2, 0),
            kid_hi(k, hi2, 0),
            kid_end(t, c, g1, 0, end2),
        );
    }
}

/// A tree has one height.
pub proof fn height_is<K: Key, V>(t: Map<u32, Node<K, V>>, root: u32, h: nat)
    requires
        is_root(t, root, h),
    ensures
        is_tree(t, root),
        height(t, root) == h,
{
    let g = height(t, root);
    assert(is_root(t, root, g));
    same_height(t, root, h, g, None, None, 0, None, None, 0);
}

/// In a tree the items ascend, and each key is found with its value.
pub proof fn all_sorted<K: Key, V>(t: Map<u32, Node<K, V>>, root: u32)
    requires
        is_tree(t, root),
    ensures
        items_ok(all(t, root), None, None),
        forall|k: K| #[trigger] get(t, root, k) == item_find(all(t, root), k),
{
    let h = height(t, root);
    assert(is_root(t, root, h));
    rows_sorted(t, root, h, None, None, 0);
    assert forall|k: K| #[trigger] get(t, root, k) == item_find(all(t, root), k) by {
        assert(in_range(None::<K>, None, k));
        assert(find(t, root, h, k) == item_find(rows(t, root, h), k));
    }
}

/// Ascending sequences with the same items in them are the same.
pub proof fn sorted_unique<K: Key, V>(a: Seq<(K, V)>, b: Seq<(K, V)>)
    requires
        items_ok(a, None, None),
        items_ok(b, None, None),
        forall|k: K| #[trigger] item_find(a, k) == item_find(b, k),
    ensures
        a == b,
    decreases a.len(),
{
    if a.len() == 0 {
        if b.len() > 0 {
            item_find_at(b, None, None, 0);
            item_find_none(a, b[0].0);
        }
        assert(a =~= b);
    } else if b.len() == 0 {
        item_find_at(a, None, None, 0);
        item_find_none(b, a[0].0);
    } else {
        let x = a.last();
        let y = b.last();
        item_find_at(a, None, None, a.len() - 1);
        item_find_at(b, None, None, b.len() - 1);
        K::total(x.0, y.0);
        K::irreflexive(x.0);
        if x.0.before(y.0) {
            assert forall|i: int| 0 <= i < a.len() implies (#[trigger] a[i]).0 != y.0 by {
                if a[i].0 == y.0 && i < a.len() - 1 {
                    K::transitive(x.0, a[i].0, x.0);
                }
            }
            item_find_none(a, y.0);
        } else if y.0.before(x.0) {
            K::irreflexive(y.0);
            assert forall|i: int| 0 <= i < b.len() implies (#[trigger] b[i]).0 != x.0 by {
                if b[i].0 == x.0 && i < b.len() - 1 {
                    K::transitive(y.0, b[i].0, y.0);
                }
            }
            item_find_none(b, x.0);
        }
        assert(x == y);
        let a1 = a.drop_last();
        let b1 = b.drop_last();
        items_remove(a, None, None, a.len() - 1);
        items_remove(b, None, None, b.len() - 1);
        assert(a.remove(a.len() - 1) =~= a1);
        assert(b.remove(b.len() - 1) =~= b1);
        assert forall|k: K| #[trigger] item_find(a1, k) == item_find(b1, k) by {
            assert(item_find(a, k) == item_find(b, k));
            assert(item_find(a.remove(a.len() - 1), k) == if k == x.0 {
                None
            } else {
                item_find(a, k)
            });
            assert(item_find(b.remove(b.len() - 1), k) == if k == y.0 {
                None
            } else {
                item_find(b, k)
            });
        }
        sorted_unique(a1, b1);
        assert(a =~= a1.push(x));
        assert(b =~= b1.push(y));
    }
}

/// A tree whose pages did not change is the same tree.
pub proof fn tree_kept<K: Key, V>(t: Map<u32, Node<K, V>>, t2: Map<u32, Node<K, V>>, root: u32)
    requires
        is_tree(t, root),
        forall|q: u32| #[trigger] has(t, root, q) ==> t2.contains_key(q) && t2[q] == t[q],
    ensures
        is_tree(t2, root),
        height(t2, root) == height(t, root),
        forall|q: u32| #[trigger] has(t2, root, q) == has(t, root, q),
        forall|k: K| #[trigger] get(t2, root, k) == get(t, root, k),
        all(t2, root) == all(t, root),
        forall|k: K| #[trigger]
            leaf_for(t2, root, height(t2, root), k) == leaf_for(t, root, height(t, root), k) && has(
                t,
                root,
                leaf_for(t, root, height(t, root), k),
            ),
{
    let h = height(t, root);
    assert(is_root(t, root, h));
    assert forall|q: u32| #[trigger] owns(t, root, h, q) implies t2.contains_key(q) && t2[q]
        == t[q] by {
        assert(has(t, root, q));
    }
    frame(t, t2, root, h, None, None, 0);
    assert(owns(t2, root, h, 0) == owns(t, root, h, 0));
    height_is(t2, root, h);
    assert forall|q: u32| #[trigger] has(t2, root, q) == has(t, root, q) by {
        assert(owns(t2, root, h, q) == owns(t, root, h, q));
    }
    assert forall|k: K| #[trigger] get(t2, root, k) == get(t, root, k) by {
        assert(in_range(None::<K>, None, k));
        assert(find(t2, root, h, k) == find(t, root, h, k));
    }
    assert forall|k: K| #[trigger]
        leaf_for(t2, root, height(t2, root), k) == leaf_for(t, root, height(t, root), k) && has(
            t,
            root,
            leaf_for(t, root, height(t, root), k),
        ) by {
        assert(in_range(None::<K>, None, k));
        leaf_for_kept(t, t2, root, h, None, None, 0, k);
    }
}

/// Distinct page numbers below `n` are at most `n`.
pub proof fn distinct_bounded(s: Seq<u32>, n: nat)
    requires
        s.no_duplicates(),
        forall|i: int| 0 <= i < s.len() ==> (#[trigger] s[i]) < n,
    ensures
        s.len() <= n,
    decreases n,
{
    if n == 0 {
        if s.len() > 0 {
            assert(s[0] < 0);
        }
    } else if exists|i: int| 0 <= i < s.len() && (#[trigger] s[i]) == n - 1 {
        let i = choose|i: int| 0 <= i < s.len() && (#[trigger] s[i]) == n - 1;
        let r = s.remove(i);
        assert forall|a: int, b: int| 0 <= a < r.len() && 0 <= b < r.len() && a != b implies r[a]
            != r[b] by {
            let a2 = if a < i { a } else { a + 1 };
            let b2 = if b < i { b } else { b + 1 };
            assert(s[a2] != s[b2]);
        }
        assert forall|j: int| 0 <= j < r.len() implies (#[trigger] r[j]) < n - 1 by {
            let j2 = if j < i { j } else { j + 1 };
            assert(s[j2] != s[i]);
            assert(s[j2] < n);
        }
        distinct_bounded(r, (n - 1) as nat);
    } else {
        assert forall|i: int| 0 <= i < s.len() implies (#[trigger] s[i]) < n - 1 by {
            assert(s[i] < n && s[i] != n - 1);
        }
        distinct_bounded(s, (n - 1) as nat);
    }
}

// ---------------------------------------------------------------------------
// The place of a key among the leaves
// ---------------------------------------------------------------------------

/// The leaf below `p` to which a key is routed.
pub open spec fn leaf_for<K: Key, V>(t: Map<u32, Node<K, V>>, p: u32, h: nat, k: K) -> u32
    decreases h,
{
    if h == 0 {
        p
    } else {
        match t[p] {
            Node::Branch { children, keys } => leaf_for(
                t,
                children[route(keys, k)],
                (h - 1) as nat,
                k,
            ),
            _ => p,
        }
    }
}

proof fn kids_leaves_prefix<K, V>(t: Map<u32, Node<K, V>>, children: Seq<u32>, h: nat, m: int)
    requires
        0 <= m <= children.len(),
    ensures
        kids_leaves(t, children.take(m), h).len() <= kids_leaves(t, children, h).len(),
        kids_leaves(t, children.take(m), h) == kids_leaves(t, children, h).take(
            kids_leaves(t, children.take(m), h).len() as int,
        ),
    decreases children.len(),
{
    if m == children.len() {
        assert(children.take(m) =~= children);
        assert(kids_leaves(t, children, h).take(kids_leaves(t, children, h).len() as int)
            =~= kids_leaves(t, children, h));
    } else {
        let pre = children.drop_last();
        kids_leaves_prefix(t, pre, h, m);
        assert(pre.take(m) =~= children.take(m));
        assert(kids_leaves(t, children, h) == kids_leaves(t, pre, h) + leaves(
            t,
            children.last(),
            h,
        )) by {
            reveal(kids_leaves);
            reveal(leaves);
        }
        let n = kids_leaves(t, children.take(m), h).len() as int;
        assert(kids_leaves(t, children, h).take(n) =~= kids_leaves(t, pre, h).take(n));
    }
}

/// The leaf for a key holds what is found under the key, and every item of that
/// leaf is found in the tree.
pub proof fn leaf_for_items<K: Key, V>(
    t: Map<u32, Node<K, V>>,
    p: u32,
    h: nat,
    lo: Option<K>,
    hi: Option<K>,
    end: u32,
    k: K,
) -> (b: (Option<K>, Option<K>))
    requires
        wf(t, p, h, lo, hi, end),
        in_range(lo, hi, k),
    ensures
        ({
            let q = leaf_for(t, p, h, k);
            let items = t[q]->items;
            &&& t.contains_key(q)
            &&& t[q] is Leaf
            &&& items_ok(items, b.0, b.1)
            &&& item_find(items, k) == find(t, p, h, k)
            &&& forall|i: int|
                0 <= i < items.len() ==> in_range(lo, hi, (#[trigger] items[i]).0) && find(
                    t,
                    p,
                    h,
                    items[i].0,
                ) == Some(items[i].1)
        }),
    decreases h,
{
    wf_shape(t, p, h, lo, hi, end);
    if h == 0 {
        leaf_facts(t, p);
        wf_leaf(t, p, lo, hi, end);
        let items = t[p]->items;
        assert forall|i: int| 0 <= i < items.len() implies in_range(lo, hi, (#[trigger] items[i]).0)
            && find(t, p, h, items[i].0) == Some(items[i].1) by {
            item_find_at(items, lo, hi, i);
        }
        (lo, hi)
    } else {
        let h1 = (h - 1) as nat;
        wf_branch(t, p, h, h1, lo, hi, end);
        branch_facts(t, p, h, h1);
        let children = t[p]->children;
        let keys = t[p]->keys;
        route_spec(keys, k);
        route_in_kid(keys, k, lo, hi);
        let i = route(keys, k);
        assert(kid_wf(t, children, keys, h1, lo, hi, end, i));
        let b = leaf_for_items(
            t,
            children[i],
            h1,
            kid_lo(keys, lo, i),
            kid_hi(keys, hi, i),
            kid_end(t, children, h1, i, end),
            k,
        );
        let items = t[leaf_for(t, p, h, k)]->items;
        assert forall|x: int| 0 <= x < items.len() implies in_range(lo, hi, (#[trigger] items[x]).0)
            && find(t, p, h, items[x].0) == Some(items[x].1) by {
            kid_in_route(keys, items[x].0, lo, hi, i);
        }
        b
    }
}

/// The leaf for a key is one of the leaves, and all items in the leaves before
/// it lie before the key.
pub proof fn leaf_for_place<K: Key, V>(
    t: Map<u32, Node<K, V>>,
    p: u32,
    h: nat,
    lo: Option<K>,
    hi: Option<K>,
    end: u32,
    k: K,
) -> (j: int)
    requires
        wf(t, p, h, lo, hi, end),
        in_range(lo, hi, k),
    ensures
        0 <= j < leaves(t, p, h).len(),
        leaves(t, p, h)[j] == leaf_for(t, p, h, k),
        forall|i: int|
            0 <= i < leaf_rows(t, leaves(t, p, h).take(j)).len() ==> (#[trigger] leaf_rows(
                t,
                leaves(t, p, h).take(j),
            )[i]).0.before(k),
    decreases h,
{
    wf_shape(t, p, h, lo, hi, end);
    if h == 0 {
        leaf_facts(t, p);
        assert(leaves(t, p, h).take(0) =~= Seq::empty());
        0
    } else {
        let h1 = (h - 1) as nat;
        wf_branch(t, p, h, h1, lo, hi, end);
        branch_facts(t, p, h, h1);
        let children = t[p]->children;
        let keys = t[p]->keys;
        route_spec(keys, k);
        route_in_kid(keys, k, lo, hi);
        let i = route(keys, k);
        assert(kid_wf(t, children, keys, h1, lo, hi, end, i));
        let j1 = leaf_for_place(
            t,
            children[i],
            h1,
            kid_lo(keys, lo, i),
            kid_hi(keys, hi, i),
            kid_end(t, children, h1, i, end),
            k,
        );
        let a = kids_leaves(t, children.take(i), h1);
        let b = leaves(t, children[i], h1);
        let ls = leaves(t, p, h);
        kids_leaves_prefix(t, children, h1, i + 1);
        assert(children.take(i + 1).drop_last() =~= children.take(i));
        assert(children.take(i + 1).last() == children[i]);
        assert(kids_leaves(t, children.take(i + 1), h1) == a + b) by {
            reveal(kids_leaves);
            reveal(leaves);
        }
        let j = a.len() + j1;
        let ab = a + b;
        assert(ls.take(ab.len() as int) == ab);
        assert(ls[j] == ab[j]) by {
            assert(ls.take(ab.len() as int)[j] == ls[j]);
        }
        assert(ls.take(j) =~= a + b.take(j1)) by {
            assert(ls.take(j) =~= ls.take(ab.len() as int).take(j));
            assert(ab.take(j) =~= a + b.take(j1));
        }
        leaf_rows_concat(t, a, b.take(j1));
        let ra = leaf_rows(t, a);
        let rb = leaf_rows(t, b.take(j1));
        if i > 0 {
            kids_chained(t, p, h, h1, lo, hi, end, i);
            kids_sorted(t, p, h, h1, lo, hi, end, i);
            assert forall|x: int| 0 <= x < ra.len() implies (#[trigger] ra[x]).0.before(k) by {
                let s = keys[i - 1];
                assert(ra[x].0.before(s));
                K::total(s, k);
                if s.before(k) {
                    K::transitive(ra[x].0, s, k);
                }
            }
        } else {
            assert(a =~= Seq::empty()) by {
                reveal(kids_leaves);
                reveal(leaves);
            }
        }
        assert forall|x: int| 0 <= x < leaf_rows(t, ls.take(j)).len() implies (#[trigger] leaf_rows(
            t,
            ls.take(j),
        )[x]).0.before(k) by {
            if x < ra.len() {
                assert(ra[x].0.before(k));
            } else {
                assert(rb[x - ra.len()].0.before(k));
            }
        }
        j as int
    }
}

/// The items of leaves, parted at `j`.
pub proof fn leaf_rows_parted<K, V>(t: Map<u32, Node<K, V>>, ls: Seq<u32>, j: int)
    requires
        0 <= j <= ls.len(),
    ensures
        leaf_rows(t, ls) == leaf_rows(t, ls.take(j)) + leaf_rows(t, ls.skip(j)),
{
    assert(ls =~= ls.take(j) + ls.skip(j));
    leaf_rows_concat(t, ls.take(j), ls.skip(j));
}

/// The items of one leaf more.
pub proof fn leaf_rows_step<K, V>(t: Map<u32, Node<K, V>>, ls: Seq<u32>, i: int)
    requires
        0 <= i < ls.len(),
    ensures
        leaf_rows(t, ls.take(i + 1)) == leaf_rows(t, ls.take(i)) + t[ls[i]]->items,
{
    assert(ls.take(i + 1).drop_last() =~= ls.take(i));
    assert(ls.take(i + 1).last() == ls[i]);
}

// ---------------------------------------------------------------------------
// Rewriting a leaf in place
// ---------------------------------------------------------------------------

/// Leaf `q` was rewritten: it follows the same leaf, and its items are in order
/// and in bounds wherever the old ones were. All other pages are as they were.
pub open spec fn rewritten<K: Key, V>(
    t: Map<u32, Node<K, V>>,
    t2: Map<u32, Node<K, V>>,
    q: u32,
) -> bool {
    &&& t[q] is Leaf
    &&& t2.contains_key(q)
    &&& t2[q] is Leaf
    &&& t2[q]->next == t[q]->next
    &&& forall|lo: Option<K>, hi: Option<K>| #[trigger]
        items_ok(t[q]->items, lo, hi) ==> items_ok(t2[q]->items, lo, hi)
    &&& same_except(t, t2, q)
}

proof fn kids_leaves_agree<K, V>(
    t: Map<u32, Node<K, V>>,
    t2: Map<u32, Node<K, V>>,
    children: Seq<u32>,
    h: nat,
)
    requires
        forall|j: int|
            0 <= j < children.len() ==> leaves(t2, #[trigger] children[j], h) == leaves(
                t,
                children[j],
                h,
            ),
    ensures
        kids_leaves(t2, children, h) == kids_leaves(t, children, h),
    decreases children.len(),
{
    reveal(kids_leaves);
    reveal(leaves);
    if children.len() > 0 {
        assert forall|j: int| 0 <= j < children.drop_last().len() implies leaves(
            t2,
            #[trigger] children.drop_last()[j],
            h,
        ) == leaves(t, children.drop_last()[j], h) by {
            assert(children.drop_last()[j] == children[j]);
        }
        kids_leaves_agree(t, t2, children.drop_last(), h);
        assert(children.last() == children[children.len() - 1]);
    }
}

/// A tree stays a tree, with the same pages and leaves, when one of its leaves is
/// rewritten.
pub proof fn leaf_replaced<K: Key, V>(
    t: Map<u32, Node<K, V>>,
    t2: Map<u32, Node<K, V>>,
    p: u32,
    h: nat,
    lo: Option<K>,
    hi: Option<K>,
    end: u32,
    q: u32,
)
    requires
        wf(t, p, h, lo, hi, end),
        owns(t, p, h, q),
        rewritten(t, t2, q),
    ensures
        wf(t2, p, h, lo, hi, end),
        first_leaf(t2, p, h) == first_leaf(t, p, h),
        leaves(t2, p, h) == leaves(t, p, h),
        forall|r: u32| #[trigger] owns(t2, p, h, r) == owns(t, p, h, r),
    decreases h,
{
    wf_shape(t, p, h, lo, hi, end);
    if h == 0 {
        leaf_facts(t, p);
        wf_leaf(t, p, lo, hi, end);
        leaf_facts(t2, p);
        leaf_changed(t, t2, p, lo, hi, end);
    } else {
        let h1 = (h - 1) as nat;
        wf_branch(t, p, h, h1, lo, hi, end);
        branch_facts(t, p, h, h1);
        let children = t[p]->children;
        let keys = t[p]->keys;
        assert(p != q);
        let i = choose|i: int| 0 <= i < children.len() && #[trigger] owns(t, children[i], h1, q);
        assert(kid_wf(t, children, keys, h1, lo, hi, end, i));
        leaf_replaced(
            t,
            t2,
            children[i],
            h1,
            kid_lo(keys, lo, i),
            kid_hi(keys, hi, i),
            kid_end(t, children, h1, i, end),
            q,
        );
        assert(claims(t, t2, children[i], children[i], h1));
        assert(kept(t, t2, children[i], h1)) by {
            assert forall|r: u32| #[trigger]
                t.contains_key(r) && !owns(t, children[i], h1, r) implies t2.contains_key(r)
                && t2[r] == t[r] by {
                assert(r != q);
            }
        }
        child_changed(t, t2, p, h, h1, lo, hi, end, i);
        branch_facts(t2, p, h, h1);
        assert forall|j: int| 0 <= j < children.len() implies leaves(t2, #[trigger] children[j], h1)
            == leaves(t, children[j], h1) && (forall|r: u32| #[trigger]
            owns(t2, children[j], h1, r) == owns(t, children[j], h1, r)) by {
            if j != i {
                other_kid_same(t, t2, p, h, h1, lo, hi, end, i, j, q);
            }
        }
        kids_leaves_agree(t, t2, children, h1);
        assert forall|r: u32| #[trigger] owns(t2, p, h, r) == owns(t, p, h, r) by {
            if owns(t2, p, h, r) && r != p {
                let j = choose|j: int|
                    0 <= j < children.len() && #[trigger] owns(t2, children[j], h1, r);
                assert(leaves(t2, children[j], h1) == leaves(t, children[j], h1));
                assert(owns(t, children[j], h1, r));
            }
            if owns(t, p, h, r) && r != p {
                let j = choose|j: int|
                    0 <= j < children.len() && #[trigger] owns(t, children[j], h1, r);
                assert(leaves(t2, children[j], h1) == leaves(t, children[j], h1));
                assert(owns(t2, children[j], h1, r));
            }
        }
    }
}

proof fn other_kid_same<K: Key, V>(
    t: Map<u32, Node<K, V>>,
    t2: Map<u32, Node<K, V>>,
    p: u32,
    h: nat,
    h1: nat,
    lo: Option<K>,
    hi: Option<K>,
    end: u32,
    i: int,
    j: int,
    q: u32,
)
    requires
        h == h1 + 1,
        wf(t, p, h, lo, hi, end),
        t[p] is Branch,
        0 <= i < t[p]->children.len(),
        0 <= j < t[p]->children.len(),
        i != j,
        owns(t, t[p]->children[i], h1, q),
        same_except(t, t2, q),
    ensures
        leaves(t2, t[p]->children[j], h1) == leaves(t, t[p]->children[j], h1),
        forall|r: u32| #[trigger]
            owns(t2, t[p]->children[j], h1, r) == owns(t, t[p]->children[j], h1, r),
{
    wf_branch(t, p, h, h1, lo, hi, end);
    let children = t[p]->children;
    let keys = t[p]->keys;
    assert(kid_wf(t, children, keys, h1, lo, hi, end, j));
    let lo1 = kid_lo(keys, lo, j);
    let hi1 = kid_hi(keys, hi, j);
    let end1 = kid_end(t, children, h1, j, end);
    owned_exist(t, children[j], h1, lo1, hi1, end1);
    assert forall|r: u32| #[trigger] owns(t, children[j], h1, r) implies t2.contains_key(r) && t2[r]
        == t[r] by {
        if r == q {
            if i < j {
                assert(owns(t, children[i], h1, q) && owns(t, children[j], h1, q));
            } else {
                assert(owns(t, children[j], h1, q) && owns(t, children[i], h1, q));
            }
        }
    }
    frame(t, t2, children[j], h1, lo1, hi1, end1);
}

/// A whole tree of which one leaf was rewritten.
pub proof fn tree_rewritten<K: Key, V>(t: Map<u32, Node<K, V>>, t2: Map<u32, Node<K, V>>, root: u32, q: u32)
    requires
        is_tree(t, root),
        has(t, root, q),
        rewritten(t, t2, q),
    ensures
        is_tree(t2, root),
        height(t2, root) == height(t, root),
        leaves(t2, root, height(t, root)) == leaves(t, root, height(t, root)),
        forall|r: u32| #[trigger] has(t2, root, r) == has(t, root, r),
{
    let h = height(t, root);
    assert(is_root(t, root, h));
    leaf_replaced(t, t2, root, h, None, None, 0, q);
    assert(owns(t2, root, h, 0) == owns(t, root, h, 0));
    height_is(t2, root, h);
    assert forall|r: u32| #[trigger] has(t2, root, r) == has(t, root, r) by {
        assert(owns(t2, root, h, r) == owns(t, root, h, r));
    }
}

/// Leaves that did not change hold the same items.
pub proof fn leaf_rows_same<K, V>(t: Map<u32, Node<K, V>>, t2: Map<u32, Node<K, V>>, ls: Seq<u32>)
    requires
        forall|i: int| 0 <= i < ls.len() ==> t2[#[trigger] ls[i]] == t[ls[i]],
    ensures
        leaf_rows(t2, ls) == leaf_rows(t, ls),
    decreases ls.len(),
{
    if ls.len() > 0 {
        assert forall|i: int| 0 <= i < ls.drop_last().len() implies t2[#[trigger] ls.drop_last()[i]]
            == t[ls.drop_last()[i]] by {
            assert(ls.drop_last()[i] == ls[i]);
        }
        leaf_rows_same(t, t2, ls.drop_last());
        assert(ls.last() == ls[ls.len() - 1]);
    }
}

/// A key belongs into the same leaf while the pages of the tree stay, and that
/// leaf is one of them.
pub proof fn leaf_for_kept<K: Key, V>(
    t: Map<u32, Node<K, V>>,
    t2: Map<u32, Node<K, V>>,
    p: u32,
    h: nat,
    lo: Option<K>,
    hi: Option<K>,
    end: u32,
    k: K,
)
    requires
        wf(t, p, h, lo, hi, end),
        in_range(lo, hi, k),
        forall|q: u32| #[trigger] owns(t, p, h, q) ==> t2.contains_key(q) && t2[q] == t[q],
    ensures
        leaf_for(t2, p, h, k) == leaf_for(t, p, h, k),
        owns(t, p, h, leaf_for(t, p, h, k)),
    decreases h,
{
    wf_shape(t, p, h, lo, hi, end);
    if h == 0 {
        leaf_facts(t, p);
    } else {
        let h1 = (h - 1) as nat;
        wf_branch(t, p, h, h1, lo, hi, end);
        branch_facts(t, p, h, h1);
        let children = t[p]->children;
        let keys = t[p]->keys;
        route_spec(keys, k);
        route_in_kid(keys, k, lo, hi);
        let i = route(keys, k);
        assert(kid_wf(t, children, keys, h1, lo, hi, end, i));
        assert forall|q: u32| #[trigger] owns(t, children[i], h1, q) implies t2.contains_key(q)
            && t2[q] == t[q] by {
            assert(owns(t, t[p]->children[i], h1, q));
            assert(owns(t, p, h, q));
        }
        leaf_for_kept(
            t,
            t2,
            children[i],
            h1,
            kid_lo(keys, lo, i),
            kid_hi(keys, hi, i),
            kid_end(t, children, h1, i, end),
            k,
        );
        assert(owns(t, p, h, p));
        assert(t2[p] == t[p]);
        assert(owns(t, t[p]->children[i], h1, leaf_for(t, children[i], h1, k)));
    }
}

/// A leaf that is written anew is found as before.
pub proof fn leaf_for_rewritten<K: Key, V>(
    t: Map<u32, Node<K, V>>,
    t2: Map<u32, Node<K, V>>,
    q: u32,
    p: u32,
    h: nat,
    lo: Option<K>,
    hi: Option<K>,
    end: u32,
    k: K,
)
    requires
        wf(t, p, h, lo, hi, end),
        in_range(lo, hi, k),
        rewritten(t, t2, q),
    ensures
        leaf_for(t2, p, h, k) == leaf_for(t, p, h, k),
    decreases h,
{
    wf_shape(t, p, h, lo, hi, end);
    if h > 0 {
        let h1 = (h - 1) as nat;
        wf_branch(t, p, h, h1, lo, hi, end);
        branch_facts(t, p, h, h1);
        let children = t[p]->children;
        let keys = t[p]->keys;
        route_spec(keys, k);
        route_in_kid(keys, k, lo, hi);
        let i = route(keys, k);
        assert(kid_wf(t, children, keys, h1, lo, hi, end, i));
        leaf_for_rewritten(
            t,
            t2,
            q,
            children[i],
            h1,
            kid_lo(keys, lo, i),
            kid_hi(keys, hi, i),
            kid_end(t, children, h1, i, end),
            k,
        );
        assert(t2[p] == t[p]);
    }
}

/// The items of a tree after one leaf was rewritten.
pub proof fn all_rewritten<K: Key, V>(
    t: Map<u32, Node<K, V>>,
    t2: Map<u32, Node<K, V>>,
    root: u32,
    j: int,
)
    requires
        is_tree(t, root),
        0 <= j < leaves(t, root, height(t, root)).len(),
        rewritten(t, t2, leaves(t, root, height(t, root))[j]),
    ensures
        is_tree(t2, root),
        height(t2, root) == height(t, root),
        leaves(t2, root, height(t, root)) == leaves(t, root, height(t, root)),
        forall|r: u32| #[trigger] has(t2, root, r) == has(t, root, r),
        ({
            let ls = leaves(t, root, height(t, root));
            let a = leaf_rows(t, ls.take(j));
            let b = leaf_rows(t, ls.skip(j + 1));
            &&& all(t, root) == a + t[ls[j]]->items + b
            &&& all(t2, root) == a + t2[ls[j]]->items + b
        }),
{
    let h = height(t, root);
    let ls = leaves(t, root, h);
    assert(is_root(t, root, h));
    leaves_chained(t, root, h, None, None, 0);
    assert(owns(t, root, h, ls[j]));
    tree_rewritten(t, t2, root, ls[j]);
    assert(is_root(t2, root, h));
    leaves_chained(t2, root, h, None, None, 0);
    leaf_rows_step(t, ls, j);
    leaf_rows_parted(t, ls, j + 1);
    leaf_rows_step(t2, ls, j);
    leaf_rows_parted(t2, ls, j + 1);
    assert forall|i: int| 0 <= i < ls.take(j).len() implies t2[#[trigger] ls.take(j)[i]]
        == t[ls.take(j)[i]] by {
        assert(ls.take(j)[i] == ls[i] && ls[i] != ls[j]);
        assert(linked(t, ls, 0, i));
    }
    leaf_rows_same(t, t2, ls.take(j));
    assert forall|i: int| 0 <= i < ls.skip(j + 1).len() implies t2[#[trigger] ls.skip(j + 1)[i]]
        == t[ls.skip(j + 1)[i]] by {
        assert(ls.skip(j + 1)[i] == ls[i + j + 1] && ls[i + j + 1] != ls[j]);
        assert(linked(t, ls, 0, i + j + 1));
    }
    leaf_rows_same(t, t2, ls.skip(j + 1));
}

}
