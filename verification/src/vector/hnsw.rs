//! A hierarchical graph of nodes for nearest-neighbour search.
//!
//! The functions here decide which nodes to visit and to connect; what a node is
//! near to, what it is connected to and whether it is deleted they ask their
//! caller. Distances are integers that are ordered like the distances.

use std::collections::HashSet;
use vstd::prelude::*;

verus! {

/// A node and its distance.
pub type Scored = (u32, i64);

/// The distances that a node may be found to have.
pub type Near = spec_fn(u32, i64) -> bool;

/// The distances that may be found between two nodes.
pub type Gaps = spec_fn(u32, u32, i64) -> bool;

/// The neighbors that a node may be found to have at a layer.
pub type Lists = spec_fn(u32, u32, Seq<u32>) -> bool;

/// What may be found of a node.
pub type Flags = spec_fn(u32, bool) -> bool;

/// What a function may return.
pub open spec fn near<D: Fn(u32) -> i64>(f: D) -> Near {
    |v: u32, d: i64| call_ensures(f, (v,), d)
}

/// What a function may return.
pub open spec fn gaps<B: Fn(u32, u32) -> i64>(f: B) -> Gaps {
    |a: u32, b: u32, d: i64| call_ensures(f, (a, b), d)
}

/// What a function may return.
pub open spec fn lists<N: Fn(u32, u32) -> Vec<u32>>(f: N) -> Lists {
    |v: u32, l: u32, s: Seq<u32>|
        exists|r: Vec<u32>| #[trigger] call_ensures(f, (v, l), r) && r@ == s
}

/// What a function may return.
pub open spec fn flags<X: Fn(u32) -> bool>(f: X) -> Flags {
    |v: u32, b: bool| call_ensures(f, (v,), b)
}

/// No node is refused.
pub open spec fn anyone() -> Flags {
    |v: u32, b: bool| b
}

/// Ascending distances.
pub open spec fn near_first(s: Seq<Scored>) -> bool {
    forall|i: int, j: int| 0 <= i < j < s.len() ==> (#[trigger] s[i]).1 <= (#[trigger] s[j]).1
}

/// Where a node of a distance belongs among ascending distances: after those
/// that are not farther.
pub open spec fn slot(s: Seq<Scored>, d: i64) -> int
    decreases s.len(),
{
    if s.len() == 0 {
        0
    } else if s.last().1 <= d {
        s.len() as int
    } else {
        slot(s.drop_last(), d)
    }
}

/// Nodes in the order of their distances; those of equal distance keep their
/// order.
pub open spec fn ranked(s: Seq<Scored>) -> Seq<Scored>
    decreases s.len(),
{
    if s.len() == 0 {
        Seq::empty()
    } else {
        let rest = ranked(s.drop_last());
        rest.insert(slot(rest, s.last().1), s.last())
    }
}

proof fn slot_spec(s: Seq<Scored>, d: i64)
    ensures
        0 <= slot(s, d) <= s.len(),
        slot(s, d) > 0 ==> s[slot(s, d) - 1].1 <= d,
        forall|i: int| slot(s, d) <= i < s.len() ==> (#[trigger] s[i]).1 > d,
    decreases s.len(),
{
    if s.len() > 0 && s.last().1 > d {
        slot_spec(s.drop_last(), d);
        assert forall|i: int| slot(s, d) <= i < s.len() implies (#[trigger] s[i]).1 > d by {
            if i < s.len() - 1 {
                assert(s.drop_last()[i] == s[i]);
            }
        }
    }
}

proof fn inserted_has(s: Seq<Scored>, p: int, x: Scored, y: Scored)
    requires
        0 <= p <= s.len(),
    ensures
        s.insert(p, x).contains(y) <==> s.contains(y) || y == x,
{
    let t = s.insert(p, x);
    assert(t[p] == x);
    if s.contains(y) {
        let i = choose|i: int| 0 <= i < s.len() && s[i] == y;
        if i < p {
            assert(t[i] == y);
        } else {
            assert(t[i + 1] == y);
        }
    }
    if t.contains(y) {
        let i = choose|i: int| 0 <= i < t.len() && t[i] == y;
        if i < p {
            assert(s[i] == y);
        } else if i > p {
            assert(s[i - 1] == y);
        }
    }
}

/// Ranking orders nodes by distance, and neither loses nor adds one.
pub proof fn ranking_orders(s: Seq<Scored>)
    ensures
        near_first(ranked(s)),
        ranked(s).len() == s.len(),
        ranked(s).to_multiset() == s.to_multiset(),
        forall|y: Scored| #[trigger] ranked(s).contains(y) <==> s.contains(y),
    decreases s.len(),
{
    broadcast use vstd::seq_lib::group_to_multiset_ensures;

    if s.len() == 0 {
        assert(ranked(s) =~= s);
    } else {
        let front = s.drop_last();
        let x = s.last();
        ranking_orders(front);
        let rest = ranked(front);
        let p = slot(rest, x.1);
        slot_spec(rest, x.1);
        let r = ranked(s);
        assert forall|i: int, j: int| 0 <= i < j < r.len() implies (#[trigger] r[i]).1 <= (
        #[trigger] r[j]).1 by {
            if i < p && p > 0 {
                assert(rest[i].1 <= rest[p - 1].1);
            }
        }
        assert(s =~= front.push(x));
        assert forall|y: Scored| #[trigger] r.contains(y) <==> s.contains(y) by {
            inserted_has(rest, p, x, y);
            inserted_has(front, front.len() as int, x, y);
            assert(front.insert(front.len() as int, x) =~= s);
        }
    }
}

/// Sorts nodes by distance.
pub fn rank(v: &Vec<Scored>) -> (r: Vec<Scored>)
    ensures
        r@ == ranked(v@),
{
    let mut out: Vec<Scored> = Vec::new();
    let n: usize = v.len();
    let mut i: usize = 0;
    assert(v@.take(0) =~= Seq::empty());
    while i < n
        invariant
            i <= n,
            n == v@.len(),
            out@ == ranked(v@.take(i as int)),
        decreases n - i,
    {
        let x: Scored = v[i];
        let ghost before = out@;
        let mut p: usize = out.len();
        assert(before.take(p as int) =~= before);
        while p > 0 && out[p - 1].1 > x.1
            invariant
                p <= out@.len(),
                out@ == before,
                slot(before.take(p as int), x.1) == slot(before, x.1),
            decreases p,
        {
            assert(before.take(p as int).drop_last() =~= before.take(p - 1));
            p -= 1;
        }
        proof {
            if p > 0 {
                assert(before.take(p as int).last() == before[p - 1]);
            }
            assert(slot(before, x.1) == p);
            assert(v@.take(i + 1).drop_last() =~= v@.take(i as int));
            assert(v@.take(i + 1).last() == x);
        }
        out.insert(p, x);
        i += 1;
    }
    assert(v@.take(n as int) =~= v@);
    out
}

/// The first nodes of a list.
pub open spec fn first_ids(s: Seq<Scored>, m: int) -> Seq<u32> {
    s.take(
        if m < s.len() {
            m
        } else {
            s.len() as int
        },
    ).map_values(|x: Scored| x.0)
}

fn take_ids(v: &Vec<Scored>, m: usize) -> (r: Vec<u32>)
    ensures
        r@ == first_ids(v@, m as int),
{
    let mut out: Vec<u32> = Vec::new();
    let n: usize = if m < v.len() {
        m
    } else {
        v.len()
    };
    let mut i: usize = 0;
    while i < n
        invariant
            i <= n <= v@.len(),
            out@.len() == i,
            forall|j: int| 0 <= j < i ==> (#[trigger] out@[j]) == v@[j].0,
        decreases n - i,
    {
        out.push(v[i].0);
        i += 1;
    }
    assert(out@ =~= first_ids(v@, m as int));
    out
}

/// Simple neighbor selection: take the closest ones.
pub fn select_neighbors(candidates: &Vec<Scored>, m: usize) -> (r: Vec<u32>)
    ensures
        r@ == first_ids(ranked(candidates@), m as int),
{
    let sorted = rank(candidates);
    take_ids(&sorted, m)
}

/// A list with each of its nodes measured, but for those that are deleted.
pub open spec fn measured(
    between: Gaps,
    is_deleted: Flags,
    node: u32,
    list: Seq<u32>,
    out: Seq<Scored>,
) -> bool
    decreases list.len(),
{
    if list.len() == 0 {
        out.len() == 0
    } else {
        let n = list.last();
        ||| is_deleted(n, true) && measured(
            between,
            is_deleted,
            node,
            list.drop_last(),
            out,
        )
        ||| is_deleted(n, false) && out.len() > 0 && out.last().0 == n
            && between(node, n, out.last().1) && measured(
            between,
            is_deleted,
            node,
            list.drop_last(),
            out.drop_last(),
        )
    }
}

/// Prune a neighbor list: leave out deleted nodes, measure the others from the
/// node, keep the closest.
pub fn prune_neighbors<B: Fn(u32, u32) -> i64, X: Fn(u32) -> bool>(
    node_id: u32,
    current_neighbors: &Vec<u32>,
    max_neighbors: usize,
    between: &B,
    is_deleted: &X,
) -> (r: Vec<u32>)
    requires
        forall|a: u32, b: u32| call_requires(between, (a, b)),
        forall|a: u32| call_requires(is_deleted, (a,)),
    ensures
        exists|scored: Seq<Scored>| #[trigger]
            measured(gaps(*between), flags(*is_deleted), node_id, current_neighbors@, scored) && r@ == first_ids(
                ranked(scored),
                max_neighbors as int,
            ),
        r@.len() <= max_neighbors,
{
    let ghost list = current_neighbors@;
    let mut scored: Vec<Scored> = Vec::new();
    let n: usize = current_neighbors.len();
    let mut i: usize = 0;
    assert(list.take(0) =~= Seq::empty());
    while i < n
        invariant
            i <= n,
            n == list.len(),
            list == current_neighbors@,
            forall|a: u32, b: u32| call_requires(between, (a, b)),
            forall|a: u32| call_requires(is_deleted, (a,)),
            measured(gaps(*between), flags(*is_deleted), node_id, list.take(i as int), scored@),
        decreases n - i,
    {
        let x: u32 = current_neighbors[i];
        let ghost before = scored@;
        proof {
            assert(list.take(i + 1).drop_last() =~= list.take(i as int));
            assert(list.take(i + 1).last() == x);
        }
        if !is_deleted(x) {
            let d: i64 = between(node_id, x);
            scored.push((x, d));
            assert(scored@.drop_last() =~= before);
            assert(scored@.last() == (x, d));
        }
        i += 1;
    }
    assert(list.take(n as int) =~= list);
    let sorted = rank(&scored);
    take_ids(&sorted, max_neighbors)
}

/// Enough results were kept, and none is farther.
pub open spec fn beaten(r: Seq<Scored>, ef: int, d: i64) -> bool {
    r.len() >= ef && forall|i: int| 0 <= i < r.len() ==> (#[trigger] r[i]).1 <= d
}

/// The node was found to be deleted or not allowed.
pub open spec fn shut(
    is_deleted: Flags,
    is_allowed: Flags,
    v: u32,
) -> bool {
    is_deleted(v, true) || is_allowed(v, false)
}

/// The neighbors of a node were asked for, and all were seen.
pub open spec fn expanded(
    read_neighbors: Lists,
    layer: u32,
    seen: Map<u32, i64>,
    v: u32,
) -> bool {
    exists|list: Seq<u32>| #[trigger]
        read_neighbors(v, layer, list) && forall|i: int|
            0 <= i < list.len() ==> seen.contains_key(#[trigger] list[i])
}

/// A neighbor list of `u` holds `v`.
pub open spec fn leads_to(read_neighbors: Lists, layer: u32, u: u32, v: u32) -> bool {
    exists|list: Seq<u32>| #[trigger] read_neighbors(u, layer, list) && list.contains(v)
}

/// A neighbor list of one of the nodes holds `v`.
pub open spec fn led_to(read_neighbors: Lists, layer: u32, nodes: Seq<u32>, v: u32) -> bool {
    exists|j: int| 0 <= j < nodes.len() && leads_to(read_neighbors, layer, #[trigger] nodes[j], v)
}

/// The nodes that were seen, in the order in which they were: each is an entry point,
/// or a neighbor of one that was seen before it.
pub open spec fn discovered(
    read_neighbors: Lists,
    layer: u32,
    entries: Seq<u32>,
    seen: Map<u32, i64>,
    order: Seq<u32>,
) -> bool {
    &&& order.no_duplicates()
    &&& forall|v: u32| #[trigger] seen.contains_key(v) <==> order.contains(v)
    &&& forall|i: int|
        0 <= i < order.len() ==> entries.contains(#[trigger] order[i]) || led_to(
            read_neighbors,
            layer,
            order.take(i),
            order[i],
        )
}

/// One node more was seen.
proof fn discovered_step(
    read_neighbors: Lists,
    layer: u32,
    entries: Seq<u32>,
    seen: Map<u32, i64>,
    order: Seq<u32>,
    v: u32,
    d: i64,
)
    requires
        discovered(read_neighbors, layer, entries, seen, order),
        !seen.contains_key(v),
        entries.contains(v) || led_to(read_neighbors, layer, order, v),
    ensures
        discovered(read_neighbors, layer, entries, seen.insert(v, d), order.push(v)),
{
    let more = order.push(v);
    let seen2 = seen.insert(v, d);
    assert(!order.contains(v));
    assert forall|w: u32| #[trigger] seen2.contains_key(w) <==> more.contains(w) by {
        if w == v {
            assert(more[order.len() as int] == v);
        } else {
            if seen.contains_key(w) {
                let i = choose|i: int| 0 <= i < order.len() && order[i] == w;
                assert(more[i] == w);
            }
            if more.contains(w) {
                let i = choose|i: int| 0 <= i < more.len() && more[i] == w;
                assert(order[i] == w);
            }
        }
    }
    assert forall|i: int| 0 <= i < more.len() implies entries.contains(#[trigger] more[i]) || led_to(
        read_neighbors,
        layer,
        more.take(i),
        more[i],
    ) by {
        if i < order.len() {
            assert(more[i] == order[i]);
            assert(more.take(i) =~= order.take(i));
        } else {
            assert(more.take(i) =~= order);
        }
    }
    assert forall|i: int, j: int| 0 <= i < more.len() && 0 <= j < more.len() && i != j implies more[i]
        != more[j] by {
        if i < order.len() && j < order.len() {
            assert(order[i] != order[j]);
        } else if i < order.len() {
            assert(order[i] != v);
        } else {
            assert(order[j] != v);
        }
    }
}

/// A node that is in no neighbor list and no entry point is not seen.
proof fn never_discovered(
    read_neighbors: Lists,
    layer: u32,
    entries: Seq<u32>,
    seen: Map<u32, i64>,
    order: Seq<u32>,
    x: u32,
)
    requires
        discovered(read_neighbors, layer, entries, seen, order),
        unlisted(read_neighbors, x),
        !entries.contains(x),
    ensures
        !seen.contains_key(x),
{
    if seen.contains_key(x) {
        let i = choose|i: int| 0 <= i < order.len() && order[i] == x;
        let front = order.take(i);
        assert(led_to(read_neighbors, layer, front, order[i]));
        let j = choose|j: int|
            0 <= j < front.len() && leads_to(read_neighbors, layer, #[trigger] front[j], x);
        let list = choose|list: Seq<u32>| #[trigger]
            read_neighbors(front[j], layer, list) && list.contains(x);
        assert(read_neighbors(front[j], layer, list));
    }
}

/// No neighbor list holds the node.
pub open spec fn unlisted(read_neighbors: Lists, x: u32) -> bool {
    forall|u: u32, l: u32, list: Seq<u32>| #[trigger]
        read_neighbors(u, l, list) ==> !list.contains(x)
}

/// What holds of the nodes that were seen and those that were kept: every kept
/// node is neither deleted nor refused; every seen node that is not kept is shut
/// or beaten; and the neighbors of every seen node that is not beaten, and does
/// not wait, were seen.
pub open spec fn beam(
    dist: Near,
    read_neighbors: Lists,
    is_deleted: Flags,
    is_allowed: Flags,
    ef: int,
    layer: u32,
    seen: Map<u32, i64>,
    waiting: Seq<Scored>,
    kept: Seq<Scored>,
) -> bool {
    &&& forall|v: u32| #[trigger] seen.contains_key(v) ==> dist(v, seen[v])
    &&& forall|i: int|
        0 <= i < kept.len() ==> {
            let x = #[trigger] kept[i];
            &&& seen.contains_key(x.0)
            &&& seen[x.0] == x.1
            &&& is_deleted(x.0, false)
            &&& is_allowed(x.0, true)
        }
    &&& forall|i: int, j: int|
        0 <= i < j < kept.len() ==> (#[trigger] kept[i]).0 != (#[trigger] kept[j]).0
    &&& forall|v: u32| #[trigger]
        seen.contains_key(v) ==> shut(is_deleted, is_allowed, v) || kept.contains((v, seen[v]))
            || beaten(kept, ef, seen[v])
    &&& forall|v: u32| #[trigger]
        seen.contains_key(v) ==> waiting.contains((v, seen[v])) || expanded(
            read_neighbors,
            layer,
            seen,
            v,
        ) || beaten(kept, ef, seen[v])
    &&& forall|i: int|
        0 <= i < waiting.len() ==> seen.contains_key((#[trigger] waiting[i]).0) && seen[waiting[i].0]
            == waiting[i].1
}

/// Where the nearest node of a list stands; of equal ones that with the lowest
/// number.
fn nearest_at(v: &Vec<Scored>) -> (p: usize)
    requires
        v@.len() > 0,
    ensures
        p < v@.len(),
        forall|i: int| 0 <= i < v@.len() ==> v@[p as int].1 <= (#[trigger] v@[i]).1,
{
    let mut p: usize = 0;
    let mut i: usize = 1;
    while i < v.len()
        invariant
            p < i <= v@.len(),
            forall|j: int| 0 <= j < i ==> v@[p as int].1 <= (#[trigger] v@[j]).1,
        decreases v@.len() - i,
    {
        if v[i].1 < v[p].1 || v[i].1 == v[p].1 && v[i].0 < v[p].0 {
            p = i;
        }
        i += 1;
    }
    p
}

/// Where the farthest node of a list stands; of equal ones that with the highest
/// number.
fn farthest_at(v: &Vec<Scored>) -> (p: usize)
    requires
        v@.len() > 0,
    ensures
        p < v@.len(),
        forall|i: int| 0 <= i < v@.len() ==> v@[p as int].1 >= (#[trigger] v@[i]).1,
{
    let mut p: usize = 0;
    let mut i: usize = 1;
    while i < v.len()
        invariant
            p < i <= v@.len(),
            forall|j: int| 0 <= j < i ==> v@[p as int].1 >= (#[trigger] v@[j]).1,
        decreases v@.len() - i,
    {
        if v[i].1 > v[p].1 || v[i].1 == v[p].1 && v[i].0 > v[p].0 {
            p = i;
        }
        i += 1;
    }
    p
}

/// The distance of the worst of the kept nodes.
fn worst_of(kept: &Vec<Scored>) -> (d: i64)
    ensures
        kept@.len() == 0 ==> d == i64::MAX,
        kept@.len() > 0 ==> exists|p: int| 0 <= p < kept@.len() && (#[trigger] kept@[p]).1 == d,
        forall|i: int| 0 <= i < kept@.len() ==> (#[trigger] kept@[i]).1 <= d,
{
    if kept.len() == 0 {
        return i64::MAX;
    }
    let p: usize = farthest_at(kept);
    assert(kept@[p as int].1 == kept@[p as int].1);
    kept[p].1
}

proof fn removed_has(s: Seq<Scored>, p: int, y: Scored)
    requires
        0 <= p < s.len(),
    ensures
        s.remove(p).contains(y) ==> s.contains(y),
        s.contains(y) && y != s[p] ==> s.remove(p).contains(y),
{
    let t = s.remove(p);
    if s.contains(y) && y != s[p] {
        let i = choose|i: int| 0 <= i < s.len() && s[i] == y;
        if i < p {
            assert(t[i] == y);
        } else {
            assert(t[i - 1] == y);
        }
    }
    if t.contains(y) {
        let i = choose|i: int| 0 <= i < t.len() && t[i] == y;
        if i < p {
            assert(s[i] == y);
        } else {
            assert(s[i + 1] == y);
        }
    }
}

/// Numbers of 32 bits, as integers.
spec fn as_ints(m: Map<u32, i64>) -> Set<int> {
    Set::new(|p: int| 0 <= p <= u32::MAX && m.contains_key(p as u32))
}

proof fn seen_bounded(m: Map<u32, i64>)
    ensures
        as_ints(m).finite(),
        as_ints(m).len() <= 0x1_0000_0000,
{
    let all = vstd::set_lib::set_int_range(0, 0x1_0000_0000);
    vstd::set_lib::lemma_int_range(0, 0x1_0000_0000);
    assert(as_ints(m).subset_of(all));
    vstd::set_lib::lemma_len_subset(as_ints(m), all);
}

proof fn seen_grows(m: Map<u32, i64>, v: u32, d: i64)
    requires
        !m.contains_key(v),
    ensures
        as_ints(m.insert(v, d)).len() == as_ints(m).len() + 1,
{
    seen_bounded(m);
    assert(as_ints(m.insert(v, d)) =~= as_ints(m).insert(v as int));
}

/// A node is seen for the first time: it waits, and is kept if it may be, in
/// place of the farthest one if too many are kept.
proof fn beam_step(
    dist: Near,
    read_neighbors: Lists,
    is_deleted: Flags,
    is_allowed: Flags,
    ef: int,
    layer: u32,
    seen: Map<u32, i64>,
    waiting: Seq<Scored>,
    kept: Seq<Scored>,
    v: u32,
    d: i64,
    waiting2: Seq<Scored>,
    kept2: Seq<Scored>,
)
    requires
        beam(dist, read_neighbors, is_deleted, is_allowed, ef, layer, seen, waiting, kept),
        0 <= ef,
        !seen.contains_key(v),
        dist(v, d),
        kept_after(is_deleted, is_allowed, ef, kept, v, d, waiting2.len() > waiting.len(), kept2),
        waiting2 == waiting || waiting2 == waiting.push((v, d)),
        waiting2 == waiting ==> beaten(kept, ef, d),
    ensures
        beam(
            dist,
            read_neighbors,
            is_deleted,
            is_allowed,
            ef,
            layer,
            seen.insert(v, d),
            waiting2,
            kept2,
        ),
{
    let seen2 = seen.insert(v, d);
    assert forall|w: u32| seen.contains_key(w) && waiting.contains((w, seen[w])) implies #[trigger] waiting2.contains(
    (w, seen2[w])) by {
        let i = choose|i: int| 0 <= i < waiting.len() && waiting[i] == (w, seen[w]);
        assert(waiting2[i] == (w, seen2[w]));
    }
    assert forall|w: u32| seen.contains_key(w) && expanded(read_neighbors, layer, seen, w) implies #[trigger] expanded(
    read_neighbors, layer, seen2, w) by {
        let list = choose|list: Seq<u32>| #[trigger]
            read_neighbors(w, layer, list) && forall|i: int|
                0 <= i < list.len() ==> seen.contains_key(#[trigger] list[i]);
        assert(read_neighbors(w, layer, list));
    }
    if waiting2 != waiting {
        assert(waiting2[waiting.len() as int] == (v, d));
    }
    if kept2 != kept {
        let p = choose|p: int|
            0 <= p < kept.push((v, d)).len() && kept2 == #[trigger] dropped_one(
                kept.push((v, d)),
                ef,
                p,
            ) && (forall|i: int|
                0 <= i < kept.push((v, d)).len() ==> kept.push((v, d))[p].1 >= (
                #[trigger] kept.push((v, d))[i]).1);
        let more = kept.push((v, d));
        assert(more[kept.len() as int] == (v, d));
        assert forall|w: u32| #[trigger] seen2.contains_key(w) implies shut(
            is_deleted,
            is_allowed,
            w,
        ) || kept2.contains((w, seen2[w])) || beaten(kept2, ef, seen2[w]) by {
            let y = (w, seen2[w]);
            if w != v && kept.contains(y) {
                let i = choose|i: int| 0 <= i < kept.len() && kept[i] == y;
                assert(more[i] == y);
            }
            if more.contains(y) && more.len() > ef {
                removed_has(more, p, y);
            }
            if w != v && beaten(kept, ef, seen[w]) {
                beaten_still(kept, kept2, ef, v, d, p, seen[w]);
            }
        }
        assert forall|w: u32| #[trigger] seen2.contains_key(w) implies waiting2.contains(
            (w, seen2[w]),
        ) || expanded(read_neighbors, layer, seen2, w) || beaten(kept2, ef, seen2[w]) by {
            if w != v && beaten(kept, ef, seen[w]) {
                beaten_still(kept, kept2, ef, v, d, p, seen[w]);
            }
            if w != v && waiting.contains((w, seen[w])) {
                assert(waiting2.contains((w, seen2[w])));
            }
            if w != v && expanded(read_neighbors, layer, seen, w) {
                assert(expanded(read_neighbors, layer, seen2, w));
            }
        }
    } else {
        assert forall|w: u32| #[trigger] seen2.contains_key(w) implies waiting2.contains(
            (w, seen2[w]),
        ) || expanded(read_neighbors, layer, seen2, w) || beaten(kept2, ef, seen2[w]) by {
            if w != v && waiting.contains((w, seen[w])) {
                assert(waiting2.contains((w, seen2[w])));
            }
            if w != v && expanded(read_neighbors, layer, seen, w) {
                assert(expanded(read_neighbors, layer, seen2, w));
            }
        }
    }
}

/// A list without one of its nodes, if it holds too many.
pub open spec fn dropped_one(s: Seq<Scored>, ef: int, p: int) -> Seq<Scored> {
    if s.len() > ef {
        s.remove(p)
    } else {
        s
    }
}

/// What is kept after a node was looked at.
spec fn kept_after(
    is_deleted: Flags,
    is_allowed: Flags,
    ef: int,
    kept: Seq<Scored>,
    v: u32,
    d: i64,
    waits: bool,
    kept2: Seq<Scored>,
) -> bool {
    ||| kept2 == kept && (shut(is_deleted, is_allowed, v) || !waits && beaten(kept, ef, d))
    ||| {
        let more = kept.push((v, d));
        &&& is_deleted(v, false)
        &&& is_allowed(v, true)
        &&& exists|p: int|
            0 <= p < more.len() && kept2 == #[trigger] dropped_one(more, ef, p) && (forall|i: int|
                0 <= i < more.len() ==> more[p].1 >= (#[trigger] more[i]).1)
    }
}

proof fn beaten_still(
    kept: Seq<Scored>,
    kept2: Seq<Scored>,
    ef: int,
    v: u32,
    d: i64,
    p: int,
    e: i64,
)
    requires
        beaten(kept, ef, e),
        0 <= p < kept.len() + 1,
        kept2 == dropped_one(kept.push((v, d)), ef, p),
        forall|i: int|
            0 <= i < kept.push((v, d)).len() ==> kept.push((v, d))[p].1 >= (
            #[trigger] kept.push((v, d))[i]).1,
    ensures
        beaten(kept2, ef, e),
{
    let more = kept.push((v, d));
    assert(more.len() > ef);
    assert(more[kept.len() as int] == (v, d));
    assert forall|i: int| 0 <= i < kept2.len() implies (#[trigger] kept2[i]).1 <= e by {
        let j = if i < p {
            i
        } else {
            i + 1
        };
        assert(kept2[i] == more[j]);
        if j == kept.len() {
            if p < kept.len() {
                assert(more[p] == kept[p]);
                assert(more[p].1 >= more[kept.len() as int].1);
                assert(kept[p].1 <= e);
            }
        } else {
            assert(more[j] == kept[j]);
        }
    }
}

/// What a search of one layer returns: the nodes kept of those that were seen, nearest
/// first. Seen were the entry points, and neighbors of nodes that were seen before.
pub open spec fn layer_found(
    dist: Near,
    read_neighbors: Lists,
    is_deleted: Flags,
    is_allowed: Flags,
    entries: Seq<u32>,
    ef: int,
    layer: u32,
    r: Seq<Scored>,
) -> bool {
    &&& near_first(r)
    &&& r.len() <= ef || r.len() <= entries.len()
    &&& exists|seen: Map<u32, i64>, order: Seq<u32>| #[trigger]
        beam(dist, read_neighbors, is_deleted, is_allowed, ef, layer, seen, Seq::empty(), r)
            && #[trigger] discovered(read_neighbors, layer, entries, seen, order) && (forall|i: int|
            0 <= i < entries.len() ==> seen.contains_key(#[trigger] entries[i]))
}

/// A beam may be taken for a narrower one while nothing was left out.
proof fn beam_narrower(
    dist: Near,
    read_neighbors: Lists,
    is_deleted: Flags,
    is_allowed: Flags,
    wide: int,
    ef: int,
    layer: u32,
    seen: Map<u32, i64>,
    waiting: Seq<Scored>,
    kept: Seq<Scored>,
)
    requires
        beam(dist, read_neighbors, is_deleted, is_allowed, wide, layer, seen, waiting, kept),
        ef <= wide,
    ensures
        beam(dist, read_neighbors, is_deleted, is_allowed, ef, layer, seen, waiting, kept),
{
    assert(forall|d: i64| #[trigger] beaten(kept, wide, d) ==> beaten(kept, ef, d));
}

/// A node that waited is expanded.
proof fn beam_expanded(
    dist: Near,
    read_neighbors: Lists,
    is_deleted: Flags,
    is_allowed: Flags,
    ef: int,
    layer: u32,
    seen: Map<u32, i64>,
    c: Scored,
    waiting: Seq<Scored>,
    kept: Seq<Scored>,
)
    requires
        beam(dist, read_neighbors, is_deleted, is_allowed, ef, layer, seen, seq![c] + waiting, kept),
        expanded(read_neighbors, layer, seen, c.0),
    ensures
        beam(dist, read_neighbors, is_deleted, is_allowed, ef, layer, seen, waiting, kept),
{
    let more = seq![c] + waiting;
    assert(more.remove(0) =~= waiting);
    assert forall|v: u32| #[trigger] seen.contains_key(v) implies waiting.contains((v, seen[v]))
        || expanded(read_neighbors, layer, seen, v) || beaten(kept, ef, seen[v]) by {
        removed_has(more, 0, (v, seen[v]));
        assert(more[0] == c);
    }
    assert forall|i: int| 0 <= i < waiting.len() implies seen.contains_key((#[trigger] waiting[i]).0)
        && seen[waiting[i].0] == waiting[i].1 by {
        assert(more[i + 1] == waiting[i]);
    }
}

/// A waiting node comes first.
proof fn beam_picked(
    dist: Near,
    read_neighbors: Lists,
    is_deleted: Flags,
    is_allowed: Flags,
    ef: int,
    layer: u32,
    seen: Map<u32, i64>,
    waiting: Seq<Scored>,
    p: int,
    kept: Seq<Scored>,
)
    requires
        beam(dist, read_neighbors, is_deleted, is_allowed, ef, layer, seen, waiting, kept),
        0 <= p < waiting.len(),
    ensures
        beam(
            dist,
            read_neighbors,
            is_deleted,
            is_allowed,
            ef,
            layer,
            seen,
            seq![waiting[p]] + waiting.remove(p),
            kept,
        ),
{
    let rest = waiting.remove(p);
    let more = seq![waiting[p]] + rest;
    assert forall|y: Scored| #[trigger] waiting.contains(y) implies more.contains(y) by {
        removed_has(waiting, p, y);
        if y == waiting[p] {
            assert(more[0] == y);
        } else {
            let i = choose|i: int| 0 <= i < rest.len() && rest[i] == y;
            assert(more[i + 1] == y);
        }
    }
    assert forall|i: int| 0 <= i < more.len() implies seen.contains_key((#[trigger] more[i]).0)
        && seen[more[i].0] == more[i].1 by {
        if i == 0 {
            assert(waiting[p] == more[0]);
        } else if i - 1 < p {
            assert(waiting[i - 1] == more[i]);
        } else {
            assert(waiting[i] == more[i]);
        }
    }
}

/// The nearest of the waiting nodes is beaten, and so all are.
proof fn beam_stopped(
    dist: Near,
    read_neighbors: Lists,
    is_deleted: Flags,
    is_allowed: Flags,
    ef: int,
    layer: u32,
    seen: Map<u32, i64>,
    waiting: Seq<Scored>,
    p: int,
    kept: Seq<Scored>,
)
    requires
        beam(dist, read_neighbors, is_deleted, is_allowed, ef, layer, seen, waiting, kept),
        waiting.len() > 0 ==> 0 <= p < waiting.len() && beaten(kept, ef, waiting[p].1),
        forall|i: int| 0 <= i < waiting.len() ==> waiting[p].1 <= (#[trigger] waiting[i]).1,
    ensures
        beam(dist, read_neighbors, is_deleted, is_allowed, ef, layer, seen, Seq::empty(), kept),
{
    assert forall|v: u32| #[trigger] seen.contains_key(v) && waiting.contains((v, seen[v])) implies beaten(
        kept,
        ef,
        seen[v],
    ) by {
        let i = choose|i: int| 0 <= i < waiting.len() && waiting[i] == (v, seen[v]);
        assert(waiting[p].1 <= waiting[i].1);
    }
}

/// The order in which nodes are kept does not matter.
proof fn beam_ranked(
    dist: Near,
    read_neighbors: Lists,
    is_deleted: Flags,
    is_allowed: Flags,
    ef: int,
    layer: u32,
    seen: Map<u32, i64>,
    kept: Seq<Scored>,
)
    requires
        beam(dist, read_neighbors, is_deleted, is_allowed, ef, layer, seen, Seq::empty(), kept),
    ensures
        beam(
            dist,
            read_neighbors,
            is_deleted,
            is_allowed,
            ef,
            layer,
            seen,
            Seq::empty(),
            ranked(kept),
        ),
        near_first(ranked(kept)),
        ranked(kept).len() == kept.len(),
{
    let r = ranked(kept);
    ranking_orders(kept);
    ids_apart(kept);
    assert forall|i: int| 0 <= i < r.len() implies {
        let x = #[trigger] r[i];
        &&& seen.contains_key(x.0)
        &&& seen[x.0] == x.1
        &&& is_deleted(x.0, false)
        &&& is_allowed(x.0, true)
    } by {
        assert(r.contains(r[i]));
        let k = choose|k: int| 0 <= k < kept.len() && kept[k] == r[i];
        assert(kept[k] == r[i]);
    }
    assert forall|d: i64| #[trigger] beaten(kept, ef, d) implies beaten(r, ef, d) by {
        assert forall|i: int| 0 <= i < r.len() implies (#[trigger] r[i]).1 <= d by {
            assert(r.contains(r[i]));
            let k = choose|k: int| 0 <= k < kept.len() && kept[k] == r[i];
            assert(kept[k] == r[i]);
        }
    }
}

proof fn ids_apart(s: Seq<Scored>)
    requires
        forall|i: int, j: int| 0 <= i < j < s.len() ==> (#[trigger] s[i]).0 != (#[trigger] s[j]).0,
    ensures
        forall|i: int, j: int|
            0 <= i < j < ranked(s).len() ==> (#[trigger] ranked(s)[i]).0 != (
            #[trigger] ranked(s)[j]).0,
    decreases s.len(),
{
    if s.len() > 0 {
        let front = s.drop_last();
        let x = s.last();
        assert forall|i: int, j: int| 0 <= i < j < front.len() implies (#[trigger] front[i]).0 != (
        #[trigger] front[j]).0 by {
            assert(s[i].0 != s[j].0);
        }
        ids_apart(front);
        ranking_orders(front);
        let rest = ranked(front);
        let p = slot(rest, x.1);
        slot_spec(rest, x.1);
        let r = ranked(s);
        assert forall|k: int| 0 <= k < rest.len() implies (#[trigger] rest[k]).0 != x.0 by {
            assert(rest.contains(rest[k]));
            let i = choose|i: int| 0 <= i < front.len() && front[i] == rest[k];
            assert(s[i].0 != s[s.len() - 1].0);
        }
        assert forall|i: int, j: int| 0 <= i < j < r.len() implies (#[trigger] r[i]).0 != (
        #[trigger] r[j]).0 by {
            let a = if i < p {
                i
            } else {
                i - 1
            };
            let b = if j < p {
                j
            } else {
                j - 1
            };
            if i != p {
                assert(rest[a] == r[i]);
            }
            if j != p {
                assert(rest[b] == r[j]);
            }
        }
    }
}

/// Keeps a node if it may be kept, and drops the farthest one if too many are
/// kept.
fn keep<X: Fn(u32) -> bool, A: Fn(u32) -> bool>(
    kept: &mut Vec<Scored>,
    v: u32,
    d: i64,
    ef: usize,
    is_deleted: &X,
    is_allowed: &A,
)
    requires
        call_requires(is_deleted, (v,)),
        call_requires(is_allowed, (v,)),
    ensures
        kept_after(flags(*is_deleted), flags(*is_allowed), ef as int, old(kept)@, v, d, true, final(kept)@),
        final(kept)@.len() <= ef || final(kept)@.len() <= old(kept)@.len(),
{
    if !is_deleted(v) && is_allowed(v) {
        kept.push((v, d));
        let p: usize = farthest_at(kept);
        let ghost more = kept@;
        if kept.len() > ef {
            kept.remove(p);
        }
        assert(kept@ == dropped_one(more, ef as int, p as int));
        assert(more == old(kept)@.push((v, d)));
    }
}

/// Beam search at a single layer with beam width `ef`.
///
/// Deleted nodes and those that are not allowed are passed through for
/// connectivity but are not returned.
#[verifier::rlimit(40)]
pub fn search_layer<
    D: Fn(u32) -> i64,
    N: Fn(u32, u32) -> Vec<u32>,
    X: Fn(u32) -> bool,
    A: Fn(u32) -> bool,
>(
    entry_points: &[u32],
    ef: u32,
    layer: u32,
    dist: &D,
    read_neighbors: &N,
    is_deleted: &X,
    is_allowed: &A,
) -> (r: Vec<Scored>)
    requires
        forall|a: u32| call_requires(dist, (a,)),
        forall|a: u32, l: u32| call_requires(read_neighbors, (a, l)),
        forall|a: u32| call_requires(is_deleted, (a,)),
        forall|a: u32| call_requires(is_allowed, (a,)),
    ensures
        layer_found(
            near(*dist),
            lists(*read_neighbors),
            flags(*is_deleted),
            flags(*is_allowed),
            entry_points@,
            ef as int,
            layer,
            r@,
        ),
{
    broadcast use vstd::std_specs::hash::group_hash_axioms;

    let mut visited: HashSet<u32> = HashSet::new();
    let mut candidates: Vec<Scored> = Vec::new();
    let mut kept: Vec<Scored> = Vec::new();
    let ghost mut seen: Map<u32, i64> = Map::empty();
    let ghost entries = entry_points@;
    let ghost mut order: Seq<u32> = Seq::empty();
    let width: usize = ef as usize;
    let ghost wide: int = ef as int + entries.len() + 1;
    let n: usize = entry_points.len();
    let mut i: usize = 0;
    while i < n
        invariant
            i <= n,
            n == entries.len(),
            entries == entry_points@,
            wide == ef as int + entries.len() + 1,
            forall|a: u32| call_requires(dist, (a,)),
            forall|a: u32| call_requires(is_deleted, (a,)),
            forall|a: u32| call_requires(is_allowed, (a,)),
            forall|a: u32| visited@.contains(a) <==> seen.contains_key(a),
            discovered(lists(*read_neighbors), layer, entries, seen, order),
            beam(
                near(*dist),
                lists(*read_neighbors),
                flags(*is_deleted),
                flags(*is_allowed),
                wide,
                layer,
                seen,
                candidates@,
                kept@,
            ),
            kept@.len() <= i,
            forall|j: int| 0 <= j < i ==> seen.contains_key(#[trigger] entries[j]),
        decreases n - i,
    {
        let v: u32 = entry_points[i];
        if visited.insert(v) {
            let d: i64 = dist(v);
            let ghost waiting = candidates@;
            let ghost before = kept@;
            candidates.push((v, d));
            if !is_deleted(v) && is_allowed(v) {
                kept.push((v, d));
                proof {
                    let p = farthest_in(kept@);
                    assert(kept@ == dropped_one(before.push((v, d)), wide, p));
                }
            }
            proof {
                beam_step(
                    near(*dist),
                    lists(*read_neighbors),
                    flags(*is_deleted),
                    flags(*is_allowed),
                    wide,
                    layer,
                    seen,
                    waiting,
                    before,
                    v,
                    d,
                    candidates@,
                    kept@,
                );
                assert(entries[i as int] == v);
                discovered_step(lists(*read_neighbors), layer, entries, seen, order, v, d);
                order = order.push(v);
                seen = seen.insert(v, d);
            }
        }
        i += 1;
    }
    proof {
        beam_narrower(
            near(*dist),
            lists(*read_neighbors),
            flags(*is_deleted),
            flags(*is_allowed),
            wide,
            ef as int,
            layer,
            seen,
            candidates@,
            kept@,
        );
        seen_bounded(seen);
    }
    let mut done: bool = false;
    while !done && candidates.len() > 0
        invariant
            n == entries.len(),
            width == ef,
            forall|a: u32| call_requires(dist, (a,)),
            forall|a: u32, l: u32| call_requires(read_neighbors, (a, l)),
            forall|a: u32| call_requires(is_deleted, (a,)),
            forall|a: u32| call_requires(is_allowed, (a,)),
            forall|a: u32| visited@.contains(a) <==> seen.contains_key(a),
            discovered(lists(*read_neighbors), layer, entries, seen, order),
            !done ==> beam(
                near(*dist),
                lists(*read_neighbors),
                flags(*is_deleted),
                flags(*is_allowed),
                ef as int,
                layer,
                seen,
                candidates@,
                kept@,
            ),
            done ==> beam(
                near(*dist),
                lists(*read_neighbors),
                flags(*is_deleted),
                flags(*is_allowed),
                ef as int,
                layer,
                seen,
                Seq::empty(),
                kept@,
            ),
            kept@.len() <= ef || kept@.len() <= n,
            forall|j: int| 0 <= j < n ==> seen.contains_key(#[trigger] entries[j]),
            as_ints(seen).len() <= 0x1_0000_0000,
        decreases 0x1_0000_0000 - as_ints(seen).len(), candidates@.len(), (if done { 0int } else { 1 }),
    {
        let p: usize = nearest_at(&candidates);
        let c: Scored = candidates[p];
        let worst: i64 = worst_of(&kept);
        if c.1 > worst && kept.len() >= width {
            proof {
                assert(beaten(kept@, ef as int, c.1));
                beam_stopped(
                    near(*dist),
                    lists(*read_neighbors),
                    flags(*is_deleted),
                    flags(*is_allowed),
                    ef as int,
                    layer,
                    seen,
                    candidates@,
                    p as int,
                    kept@,
                );
            }
            done = true;
        } else {
            proof {
                beam_picked(
                    near(*dist),
                    lists(*read_neighbors),
                    flags(*is_deleted),
                    flags(*is_allowed),
                    ef as int,
                    layer,
                    seen,
                    candidates@,
                    p as int,
                    kept@,
                );
            }
            assert(candidates@[p as int] == c);
            let ghost had = candidates@.len();
            let ghost size = as_ints(seen).len();
            candidates.remove(p);
            let list = read_neighbors(c.0, layer);
            assert(seen.contains_key(c.0));
            let m: usize = list.len();
            let mut k: usize = 0;
            while k < m
                invariant
                    k <= m,
                    m == list@.len(),
                    n == entries.len(),
                    width == ef,
                    forall|a: u32| call_requires(dist, (a,)),
                    forall|a: u32| call_requires(is_deleted, (a,)),
                    forall|a: u32| call_requires(is_allowed, (a,)),
                    forall|a: u32| visited@.contains(a) <==> seen.contains_key(a),
                    discovered(lists(*read_neighbors), layer, entries, seen, order),
                    lists(*read_neighbors)(c.0, layer, list@),
                    order.contains(c.0),
                    beam(
                        near(*dist),
                        lists(*read_neighbors),
                        flags(*is_deleted),
                        flags(*is_allowed),
                        ef as int,
                        layer,
                        seen,
                        seq![c] + candidates@,
                        kept@,
                    ),
                    kept@.len() <= ef || kept@.len() <= n,
                    forall|j: int| 0 <= j < n ==> seen.contains_key(#[trigger] entries[j]),
                    forall|j: int| 0 <= j < k ==> seen.contains_key(#[trigger] list@[j]),
                    as_ints(seen).len() <= 0x1_0000_0000,
                    as_ints(seen).len() > size || as_ints(seen).len() == size && candidates@.len()
                        < had,
                decreases m - k,
            {
                let v: u32 = list[k];
                if visited.insert(v) {
                    let d: i64 = dist(v);
                    let ghost waiting = seq![c] + candidates@;
                    let ghost before = kept@;
                    let worst: i64 = worst_of(&kept);
                    if d < worst || kept.len() < width {
                        candidates.push((v, d));
                        keep(&mut kept, v, d, width, is_deleted, is_allowed);
                        assert(seq![c] + candidates@ =~= waiting.push((v, d)));
                    } else {
                        assert(beaten(kept@, ef as int, d));
                    }
                    proof {
                        beam_step(
                            near(*dist),
                            lists(*read_neighbors),
                            flags(*is_deleted),
                            flags(*is_allowed),
                            ef as int,
                            layer,
                            seen,
                            waiting,
                            before,
                            v,
                            d,
                            seq![c] + candidates@,
                            kept@,
                        );
                        seen_grows(seen, v, d);
                        let j = choose|j: int| 0 <= j < order.len() && order[j] == c.0;
                        assert(list@[k as int] == v);
                        assert(leads_to(lists(*read_neighbors), layer, order[j], v));
                        discovered_step(lists(*read_neighbors), layer, entries, seen, order, v, d);
                        order = order.push(v);
                        assert(order[j] == c.0);
                        seen = seen.insert(v, d);
                        seen_bounded(seen);
                    }
                }
                k += 1;
            }
            proof {
                assert(lists(*read_neighbors)(c.0, layer, list@));
                assert(expanded(lists(*read_neighbors), layer, seen, c.0));
                beam_expanded(
                    near(*dist),
                    lists(*read_neighbors),
                    flags(*is_deleted),
                    flags(*is_allowed),
                    ef as int,
                    layer,
                    seen,
                    c,
                    candidates@,
                    kept@,
                );
            }
        }
    }
    proof {
        if !done {
            assert(candidates@ =~= Seq::empty());
        }
        beam_ranked(
            near(*dist),
            lists(*read_neighbors),
            flags(*is_deleted),
            flags(*is_allowed),
            ef as int,
            layer,
            seen,
            kept@,
        );
    }
    rank(&kept)
}

/// Where a farthest node of a list stands.
proof fn farthest_in(s: Seq<Scored>) -> (p: int)
    requires
        s.len() > 0,
    ensures
        0 <= p < s.len(),
        forall|i: int| 0 <= i < s.len() ==> s[p].1 >= (#[trigger] s[i]).1,
    decreases s.len(),
{
    if s.len() == 1 {
        0
    } else {
        let q = farthest_in(s.drop_last());
        let last = s.len() - 1;
        assert forall|i: int| 0 <= i < last implies s[q].1 >= (#[trigger] s[i]).1 by {
            assert(s.drop_last()[i] == s[i]);
            assert(s.drop_last()[q] == s[q]);
        }
        if s[last].1 > s[q].1 {
            last
        } else {
            q
        }
    }
}

/// Every node of a list is deleted, or not nearer.
pub open spec fn no_nearer(
    dist: Near,
    is_deleted: Flags,
    list: Seq<u32>,
    d: i64,
) -> bool {
    forall|i: int| 0 <= i < list.len() ==> far_enough(dist, is_deleted, #[trigger] list[i], d)
}

/// The node is deleted, or not nearer.
pub open spec fn far_enough(
    dist: Near,
    is_deleted: Flags,
    v: u32,
    d: i64,
) -> bool {
    is_deleted(v, true) || exists|e: i64| #[trigger]
        dist(v, e) && e >= d
}

/// One step of a walk: to the nearest of the neighbors, which is nearer.
pub open spec fn hop(
    dist: Near,
    read_neighbors: Lists,
    is_deleted: Flags,
    layer: u32,
    a: Scored,
    b: Scored,
) -> bool {
    exists|list: Seq<u32>| #[trigger]
        read_neighbors(a.0, layer, list) && list.contains(b.0) && no_nearer(
            dist,
            is_deleted,
            list,
            b.1,
        ) && b.1 < a.1 && is_deleted(b.0, false) && dist(b.0, b.1)
}

/// The end of a walk: no neighbor is nearer.
pub open spec fn settled(
    dist: Near,
    read_neighbors: Lists,
    is_deleted: Flags,
    layer: u32,
    a: Scored,
) -> bool {
    exists|list: Seq<u32>| #[trigger]
        read_neighbors(a.0, layer, list) && no_nearer(
            dist,
            is_deleted,
            list,
            a.1,
        )
}

/// A walk through one layer.
pub open spec fn walked(
    dist: Near,
    read_neighbors: Lists,
    is_deleted: Flags,
    layer: u32,
    path: Seq<Scored>,
) -> bool {
    &&& path.len() > 0
    &&& forall|i: int|
        0 <= i < path.len() - 1 ==> hop(
            dist,
            read_neighbors,
            is_deleted,
            layer,
            #[trigger] path[i],
            path[i + 1],
        )
    &&& settled(dist, read_neighbors, is_deleted, layer, path.last())
}

/// A walk through each of the layers from `top` down to the one above `target`.
pub open spec fn descended(
    dist: Near,
    read_neighbors: Lists,
    is_deleted: Flags,
    top: int,
    target: int,
    a: Scored,
    b: Scored,
) -> bool
    decreases top - target,
{
    if top <= target {
        a == b
    } else {
        exists|path: Seq<Scored>| #[trigger]
            walked(dist, read_neighbors, is_deleted, (target + 1) as u32, path) && path.last() == b
                && descended(
                dist,
                read_neighbors,
                is_deleted,
                top,
                target + 1,
                a,
                path[0],
            )
    }
}

/// Where the walks through the upper layers lead from a node.
pub open spec fn reached(
    dist: Near,
    read_neighbors: Lists,
    is_deleted: Flags,
    top: int,
    target: int,
    entry: u32,
    r: u32,
) -> bool {
    if top <= target {
        r == entry
    } else {
        exists|d: i64, e: i64| #[trigger]
            dist(entry, d) && #[trigger] dist(r, e) && descended(
                dist,
                read_neighbors,
                is_deleted,
                top,
                target,
                (entry, d),
                (r, e),
            )
    }
}

fn walk<D: Fn(u32) -> i64, N: Fn(u32, u32) -> Vec<u32>, X: Fn(u32) -> bool>(
    start: Scored,
    layer: u32,
    dist: &D,
    read_neighbors: &N,
    is_deleted: &X,
) -> (r: Scored)
    requires
        forall|a: u32| call_requires(dist, (a,)),
        forall|a: u32, l: u32| call_requires(read_neighbors, (a, l)),
        forall|a: u32| call_requires(is_deleted, (a,)),
        call_ensures(dist, (start.0,), start.1),
    ensures
        exists|path: Seq<Scored>| #[trigger]
            walked(near(*dist), lists(*read_neighbors), flags(*is_deleted), layer, path) && path[0] == start
                && path.last() == r,
        call_ensures(dist, (r.0,), r.1),
{
    let mut current: Scored = start;
    let ghost mut path: Seq<Scored> = seq![start];
    let mut improved: bool = true;
    while improved
        invariant
            forall|a: u32| call_requires(dist, (a,)),
            forall|a: u32, l: u32| call_requires(read_neighbors, (a, l)),
            forall|a: u32| call_requires(is_deleted, (a,)),
            call_ensures(dist, (current.0,), current.1),
            path.len() > 0,
            path[0] == start,
            path.last() == current,
            forall|i: int|
                0 <= i < path.len() - 1 ==> hop(
                    near(*dist),
                    lists(*read_neighbors),
                    flags(*is_deleted),
                    layer,
                    #[trigger] path[i],
                    path[i + 1],
                ),
            !improved ==> settled(near(*dist), lists(*read_neighbors), flags(*is_deleted), layer, current),
        decreases current.1 - i64::MIN, (if improved { 1int } else { 0 }),
    {
        improved = false;
        let ghost from = current;
        let list = read_neighbors(current.0, layer);
        let n: usize = list.len();
        let mut i: usize = 0;
        while i < n
            invariant
                i <= n,
                n == list@.len(),
                forall|a: u32| call_requires(dist, (a,)),
                forall|a: u32| call_requires(is_deleted, (a,)),
                call_ensures(dist, (current.0,), current.1),
                no_nearer(near(*dist), flags(*is_deleted), list@.take(i as int), current.1),
                !improved ==> current == from,
                improved ==> current.1 < from.1 && list@.contains(current.0) && call_ensures(
                    is_deleted,
                    (current.0,),
                    false,
                ),
            decreases n - i,
        {
            let v: u32 = list[i];
            let ghost was = current.1;
            if !is_deleted(v) {
                let d: i64 = dist(v);
                if d < current.1 {
                    current = (v, d);
                    improved = true;
                }
                assert(near(*dist)(v, d) && d >= current.1);
            }
            proof {
                assert(far_enough(near(*dist), flags(*is_deleted), v, current.1));
                let head = list@.take(i as int);
                let more = list@.take(i + 1);
                assert forall|j: int| 0 <= j < more.len() implies far_enough(
                    near(*dist),
                    flags(*is_deleted),
                    #[trigger] more[j],
                    current.1,
                ) by {
                    if j < i {
                        assert(head[j] == more[j]);
                        assert(far_enough(near(*dist), flags(*is_deleted), head[j], was));
                    }
                }
            }
            i += 1;
        }
        proof {
            assert(list@.take(n as int) =~= list@);
            assert(lists(*read_neighbors)(from.0, layer, list@));
            if improved {
                let before = path;
                assert(hop(near(*dist), lists(*read_neighbors), flags(*is_deleted), layer, from, current));
                path = path.push(current);
                assert forall|k: int| 0 <= k < path.len() - 1 implies hop(
                    near(*dist),
                    lists(*read_neighbors),
                    flags(*is_deleted),
                    layer,
                    #[trigger] path[k],
                    path[k + 1],
                ) by {
                    if k < before.len() - 1 {
                        assert(path[k] == before[k] && path[k + 1] == before[k + 1]);
                    }
                }
            }
        }
    }
    assert(walked(near(*dist), lists(*read_neighbors), flags(*is_deleted), layer, path));
    current
}

/// Greedy descent through the layers above `target_layer`: at each, walks to
/// ever nearer neighbors that are not deleted until none is nearer.
pub fn search_upper_layers<D: Fn(u32) -> i64, N: Fn(u32, u32) -> Vec<u32>, X: Fn(u32) -> bool>(
    entry_point: u32,
    current_max_layer: u32,
    target_layer: u32,
    dist: &D,
    read_neighbors: &N,
    is_deleted: &X,
) -> (r: u32)
    requires
        forall|a: u32| call_requires(dist, (a,)),
        forall|a: u32, l: u32| call_requires(read_neighbors, (a, l)),
        forall|a: u32| call_requires(is_deleted, (a,)),
    ensures
        reached(
            near(*dist),
            lists(*read_neighbors),
            flags(*is_deleted),
            current_max_layer as int,
            target_layer as int,
            entry_point,
            r,
        ),
{
    let d: i64 = dist(entry_point);
    let mut current: Scored = (entry_point, d);
    let mut layer: u32 = current_max_layer;
    while layer > target_layer
        invariant
            layer <= current_max_layer,
            layer >= target_layer || layer == current_max_layer,
            forall|a: u32| call_requires(dist, (a,)),
            forall|a: u32, l: u32| call_requires(read_neighbors, (a, l)),
            forall|a: u32| call_requires(is_deleted, (a,)),
            call_ensures(dist, (current.0,), current.1),
            descended(
                near(*dist),
                lists(*read_neighbors),
                flags(*is_deleted),
                current_max_layer as int,
                layer as int,
                (entry_point, d),
                current,
            ),
        decreases layer,
    {
        let next = walk(current, layer, dist, read_neighbors, is_deleted);
        proof {
            let path = choose|path: Seq<Scored>| #[trigger]
                walked(near(*dist), lists(*read_neighbors), flags(*is_deleted), layer, path) && path[0] == current
                    && path.last() == next;
            assert((layer - 1 + 1) as u32 == layer);
            assert(walked(near(*dist), lists(*read_neighbors), flags(*is_deleted), (layer - 1 + 1) as u32, path));
        }
        current = next;
        layer -= 1;
    }
    assert(near(*dist)(entry_point, d) && near(*dist)(current.0, current.1));
    current.0
}

/// The result of a search.
pub struct SearchResult {
    /// Nodes and their distances, nearest first.
    pub neighbors: Vec<Scored>,
}

/// The width of the beam that a search uses.
pub open spec fn beam_width(k: u32, ef_search: u32) -> int {
    if ef_search >= k {
        ef_search as int
    } else {
        k as int
    }
}

/// The first nodes of a search of the lowest layer from where the walks through
/// the upper layers lead.
pub open spec fn nearest_found(
    dist: Near,
    read_neighbors: Lists,
    is_deleted: Flags,
    is_allowed: Flags,
    k: u32,
    ef_search: u32,
    entry_point: u32,
    max_layer: u32,
    r: Seq<Scored>,
) -> bool {
    exists|start: u32, full: Seq<Scored>| #[trigger]
        layer_found(
            dist,
            read_neighbors,
            is_deleted,
            is_allowed,
            seq![start],
            beam_width(k, ef_search),
            0,
            full,
        ) && reached(
            dist,
            read_neighbors,
            is_deleted,
            max_layer as int,
            0,
            entry_point,
            start,
        ) && r == full.take(
            if k < full.len() {
                k as int
            } else {
                full.len() as int
            },
        )
}

/// Full search: descends the upper layers, searches layer 0, returns the `k`
/// nearest.
pub fn search<
    D: Fn(u32) -> i64,
    N: Fn(u32, u32) -> Vec<u32>,
    X: Fn(u32) -> bool,
    A: Fn(u32) -> bool,
>(
    k: u32,
    ef_search: u32,
    entry_point: u32,
    max_layer: u32,
    dist: &D,
    read_neighbors: &N,
    is_deleted: &X,
    is_allowed: &A,
) -> (r: SearchResult)
    requires
        forall|a: u32| call_requires(dist, (a,)),
        forall|a: u32, l: u32| call_requires(read_neighbors, (a, l)),
        forall|a: u32| call_requires(is_deleted, (a,)),
        forall|a: u32| call_requires(is_allowed, (a,)),
    ensures
        nearest_found(
            near(*dist),
            lists(*read_neighbors),
            flags(*is_deleted),
            flags(*is_allowed),
            k,
            ef_search,
            entry_point,
            max_layer,
            r.neighbors@,
        ),
{
    let start: u32 = if max_layer > 0 {
        search_upper_layers(entry_point, max_layer, 0, dist, read_neighbors, is_deleted)
    } else {
        entry_point
    };
    let ef: u32 = if ef_search >= k {
        ef_search
    } else {
        k
    };
    let entries: [u32; 1] = [start];
    let mut found = search_layer(
        entries.as_slice(),
        ef,
        0,
        dist,
        read_neighbors,
        is_deleted,
        is_allowed,
    );
    assert(entries@ =~= seq![start]);
    let ghost full = found@;
    if found.len() > k as usize {
        found.truncate(k as usize);
    }
    assert(layer_found(
        near(*dist),
        lists(*read_neighbors),
        flags(*is_deleted),
        flags(*is_allowed),
        seq![start],
        beam_width(k, ef_search),
        0,
        full,
    ));
    assert(found@ =~= full.take(
        if k < full.len() {
            k as int
        } else {
            full.len() as int
        },
    ));
    SearchResult { neighbors: found }
}

/// No node is refused.
pub fn everyone(_node: u32) -> (b: bool)
    ensures
        b,
{
    true
}

/// The neighbor list of a node with another node in it.
pub open spec fn joined(list: Seq<u32>, node: u32) -> Seq<u32> {
    if list.contains(node) {
        list
    } else {
        list.push(node)
    }
}

/// The new neighbor list of a node that a new node was connected to: its list
/// with the new node in it, pruned if it is too long.
pub open spec fn relinked(
    between: Gaps,
    read_neighbors: Lists,
    is_deleted: Flags,
    node: u32,
    layer: u32,
    cap: int,
    neighbor: u32,
    out: Seq<u32>,
) -> bool {
    exists|list: Seq<u32>| #[trigger]
        read_neighbors(neighbor, layer, list) && {
            let full = joined(list, node);
            if full.len() > cap {
                exists|scored: Seq<Scored>| #[trigger]
                    measured(between, is_deleted, neighbor, full, scored) && out == first_ids(
                        ranked(scored),
                        cap,
                    )
            } else {
                out == full
            }
        }
}

/// The most neighbors of a node at a layer.
pub open spec fn neighbor_cap(m: u32, layer: u32) -> int {
    if layer == 0 {
        2 * m
    } else {
        m as int
    }
}

/// The connections that a new node gets at one layer: those to the nearest nodes
/// found from `ep`, then those back from each of them. The search of the next
/// layer starts at `next`.
pub open spec fn layer_linked(
    dist: Near,
    between: Gaps,
    read_neighbors: Lists,
    is_deleted: Flags,
    node: u32,
    m: u32,
    ef: int,
    layer: u32,
    ep: u32,
    next: u32,
    block: Seq<(u32, u32, Vec<u32>)>,
) -> bool {
    exists|found: Seq<Scored>| #[trigger]
        layer_found(dist, read_neighbors, is_deleted, anyone(), seq![ep], ef, layer, found)
            && layer_linked_as(
            between,
            read_neighbors,
            is_deleted,
            node,
            m,
            layer,
            ep,
            next,
            block,
            found,
        )
}

/// The connections that a new node gets at one layer, given the nodes found there.
pub open spec fn layer_linked_as(
    between: Gaps,
    read_neighbors: Lists,
    is_deleted: Flags,
    node: u32,
    m: u32,
    layer: u32,
    ep: u32,
    next: u32,
    block: Seq<(u32, u32, Vec<u32>)>,
    found: Seq<Scored>,
) -> bool {
    let chosen = first_ids(ranked(found), m as int);
    &&& block.len() == chosen.len() + 1
    &&& block[0].0 == node
    &&& block[0].1 == layer
    &&& block[0].2@ == chosen
    &&& forall|i: int|
        0 <= i < chosen.len() ==> back_linked(
            between,
            read_neighbors,
            is_deleted,
            node,
            m,
            layer,
            #[trigger] chosen[i],
            block[i + 1],
        )
    &&& next == if found.len() > 0 {
        found[0].0
    } else {
        ep
    }
}

/// The connection back from a neighbor to the new node.
pub open spec fn back_linked(
    between: Gaps,
    read_neighbors: Lists,
    is_deleted: Flags,
    node: u32,
    m: u32,
    layer: u32,
    neighbor: u32,
    entry: (u32, u32, Vec<u32>),
) -> bool {
    &&& entry.0 == neighbor
    &&& entry.1 == layer
    &&& relinked(
        between,
        read_neighbors,
        is_deleted,
        node,
        layer,
        neighbor_cap(m, layer),
        neighbor,
        entry.2@,
    )
}

/// The connections that a new node gets at the layers below `top`, down to
/// `bottom`.
pub open spec fn linked(
    dist: Near,
    between: Gaps,
    read_neighbors: Lists,
    is_deleted: Flags,
    node: u32,
    m: u32,
    ef: int,
    top: int,
    bottom: int,
    ep: u32,
    next: u32,
    connections: Seq<(u32, u32, Vec<u32>)>,
) -> bool
    decreases top - bottom,
{
    if top <= bottom {
        connections.len() == 0 && next == ep
    } else {
        exists|cut: int, mid: u32|
            0 <= cut <= connections.len() && linked(
                dist,
                between,
                read_neighbors,
                is_deleted,
                node,
                m,
                ef,
                top,
                bottom + 1,
                ep,
                mid,
                connections.take(cut),
            ) && #[trigger] layer_linked(
                dist,
                between,
                read_neighbors,
                is_deleted,
                node,
                m,
                ef,
                bottom as u32,
                mid,
                next,
                connections.skip(cut),
            )
    }
}

/// What an insert changes.
pub struct InsertResult {
    pub node_id: u32,
    pub level: u32,
    /// Each entry gives a node, a layer and the full neighbor list of that node at
    /// that layer after the insert.
    pub connections: Vec<(u32, u32, Vec<u32>)>,
    pub new_entry_point: Option<u32>,
    pub new_max_layer: Option<u32>,
}

fn join(list: Vec<u32>, node: u32) -> (r: Vec<u32>)
    ensures
        r@ == joined(list@, node),
{
    let mut i: usize = 0;
    while i < list.len()
        invariant
            i <= list@.len(),
            forall|j: int| 0 <= j < i ==> list@[j] != node,
        decreases list@.len() - i,
    {
        if list[i] == node {
            return list;
        }
        i += 1;
    }
    let mut out = list;
    out.push(node);
    out
}

/// Connects the new node at one layer, and returns where the next search starts.
fn link_layer<
    D: Fn(u32) -> i64,
    B: Fn(u32, u32) -> i64,
    N: Fn(u32, u32) -> Vec<u32>,
    X: Fn(u32) -> bool,
>(
    node_id: u32,
    m: u32,
    ef_construction: u32,
    layer: u32,
    ep: u32,
    connections: &mut Vec<(u32, u32, Vec<u32>)>,
    dist: &D,
    between: &B,
    read_neighbors: &N,
    is_deleted: &X,
) -> (next: u32)
    requires
        m <= 0x7FFF_FFFF,
        forall|a: u32| call_requires(dist, (a,)),
        forall|a: u32, b: u32| call_requires(between, (a, b)),
        forall|a: u32, l: u32| call_requires(read_neighbors, (a, l)),
        forall|a: u32| call_requires(is_deleted, (a,)),
    ensures
        final(connections)@.len() >= old(connections)@.len(),
        final(connections)@.take(old(connections)@.len() as int) == old(connections)@,
        layer_linked(
            near(*dist),
            gaps(*between),
            lists(*read_neighbors),
            flags(*is_deleted),
            node_id,
            m,
            ef_construction as int,
            layer,
            ep,
            next,
            final(connections)@.skip(old(connections)@.len() as int),
        ),
{
    let ghost before = connections@;
    let cap: usize = if layer == 0 {
        2 * m as usize
    } else {
        m as usize
    };
    let entries: [u32; 1] = [ep];
    let found = search_layer(
        entries.as_slice(),
        ef_construction,
        layer,
        dist,
        read_neighbors,
        is_deleted,
        &everyone,
    );
    proof {
        assert(entries@ =~= seq![ep]);
        layer_found_within(
            near(*dist),
            near(*dist),
            lists(*read_neighbors),
            lists(*read_neighbors),
            flags(*is_deleted),
            flags(*is_deleted),
            flags(everyone),
            anyone(),
            seq![ep],
            ef_construction as int,
            layer,
            found@,
        );
    }
    let chosen = select_neighbors(&found, m as usize);
    let own = select_neighbors(&found, m as usize);
    connections.push((node_id, layer, own));
    let n: usize = chosen.len();
    let mut i: usize = 0;
    while i < n
        invariant
            i <= n,
            n == chosen@.len(),
            cap == neighbor_cap(m, layer),
            forall|a: u32, b: u32| call_requires(between, (a, b)),
            forall|a: u32, l: u32| call_requires(read_neighbors, (a, l)),
            forall|a: u32| call_requires(is_deleted, (a,)),
            connections@.len() == before.len() + 1 + i,
            connections@.take(before.len() as int) == before,
            connections@[before.len() as int].0 == node_id,
            connections@[before.len() as int].1 == layer,
            connections@[before.len() as int].2@ == chosen@,
            forall|j: int|
                0 <= j < i ==> back_linked(
                    gaps(*between),
                    lists(*read_neighbors),
                    flags(*is_deleted),
                    node_id,
                    m,
                    layer,
                    #[trigger] chosen@[j],
                    connections@[before.len() + 1 + j],
                ),
        decreases n - i,
    {
        let neighbor: u32 = chosen[i];
        let list = read_neighbors(neighbor, layer);
        assert(lists(*read_neighbors)(neighbor, layer, list@));
        let mut full = join(list, node_id);
        if full.len() > cap {
            let pruned = prune_neighbors(neighbor, &full, cap, between, is_deleted);
            full = pruned;
        }
        let ghost had = connections@;
        connections.push((neighbor, layer, full));
        proof {
            assert(connections@.take(before.len() as int) =~= had.take(before.len() as int));
            assert(relinked(
                gaps(*between),
                lists(*read_neighbors),
                flags(*is_deleted),
                node_id,
                layer,
                neighbor_cap(m, layer),
                neighbor,
                full@,
            ));
            assert forall|j: int| 0 <= j < i + 1 implies back_linked(
                gaps(*between),
                lists(*read_neighbors),
                flags(*is_deleted),
                node_id,
                m,
                layer,
                #[trigger] chosen@[j],
                connections@[before.len() + 1 + j],
            ) by {
                if j < i {
                    assert(connections@[before.len() + 1 + j] == had[before.len() + 1 + j]);
                }
            }
        }
        i += 1;
    }
    let next: u32 = if found.len() > 0 {
        found[0].0
    } else {
        ep
    };
    proof {
        let block = connections@.skip(before.len() as int);
        assert forall|j: int| 0 <= j < n implies back_linked(
            gaps(*between),
            lists(*read_neighbors),
            flags(*is_deleted),
            node_id,
            m,
            layer,
            #[trigger] chosen@[j],
            block[j + 1],
        ) by {
            assert(block[j + 1] == connections@[before.len() + 1 + j]);
        }
    }
    next
}

/// The connections of the first node: none at any layer.
pub open spec fn unlinked(node: u32, level: u32, connections: Seq<(u32, u32, Vec<u32>)>) -> bool {
    &&& connections.len() == level + 1
    &&& forall|i: int|
        0 <= i <= level ==> (#[trigger] connections[i]).0 == node && connections[i].1 == i
            && connections[i].2@.len() == 0
}

/// Works out what inserting a node changes; the caller carries it out.
///
/// `dist` measures from the new node, `between` from one node to another.
pub fn insert<
    D: Fn(u32) -> i64,
    B: Fn(u32, u32) -> i64,
    N: Fn(u32, u32) -> Vec<u32>,
    X: Fn(u32) -> bool,
>(
    node_id: u32,
    level: u32,
    entry_point: Option<u32>,
    current_max_layer: u32,
    m: u32,
    ef_construction: u32,
    dist: &D,
    between: &B,
    read_neighbors: &N,
    is_deleted: &X,
) -> (r: InsertResult)
    requires
        m <= 0x7FFF_FFFF,
        level < u32::MAX,
        forall|a: u32| call_requires(dist, (a,)),
        forall|a: u32, b: u32| call_requires(between, (a, b)),
        forall|a: u32, l: u32| call_requires(read_neighbors, (a, l)),
        forall|a: u32| call_requires(is_deleted, (a,)),
    ensures
        r.node_id == node_id,
        r.level == level,
        entry_point is None ==> unlinked(node_id, level, r.connections@) && r.new_entry_point
            == Some(node_id) && r.new_max_layer == Some(level),
        entry_point matches Some(ep) ==> {
            &&& r.new_entry_point == if level > current_max_layer {
                Some(node_id)
            } else {
                None
            }
            &&& r.new_max_layer == if level > current_max_layer {
                Some(level)
            } else {
                None
            }
            &&& exists|start: u32, last: u32| #[trigger]
                inserted_from(
                    near(*dist),
                    gaps(*between),
                    lists(*read_neighbors),
                    flags(*is_deleted),
                    node_id,
                    level,
                    ep,
                    current_max_layer,
                    m,
                    ef_construction,
                    start,
                    last,
                    r.connections@,
                )
            &&& ep != node_id && unlisted(lists(*read_neighbors), node_id) ==> joined_cleanly(
                node_id,
                m,
                layers_shared(level, current_max_layer),
                0,
                r.connections@,
            )
        },
{
    let mut connections: Vec<(u32, u32, Vec<u32>)> = Vec::new();
    let ep: u32 = match entry_point {
        None => {
            let mut l: u32 = 0;
            while l <= level
                invariant
                    l <= level + 1,
                    level < u32::MAX,
                    connections@.len() == l,
                    forall|i: int|
                        0 <= i < l ==> (#[trigger] connections@[i]).0 == node_id
                            && connections@[i].1 == i && connections@[i].2@.len() == 0,
                decreases level + 1 - l,
            {
                connections.push((node_id, l, Vec::new()));
                l += 1;
            }
            return InsertResult {
                node_id,
                level,
                connections,
                new_entry_point: Some(node_id),
                new_max_layer: Some(level),
            };
        },
        Some(ep) => ep,
    };
    let start: u32 = if current_max_layer > level {
        search_upper_layers(ep, current_max_layer, level, dist, read_neighbors, is_deleted)
    } else {
        ep
    };
    let top: u32 = if level <= current_max_layer {
        level
    } else {
        current_max_layer
    };
    let mut current: u32 = start;
    let mut left: u64 = top as u64 + 1;
    while left > 0
        invariant
            left <= top + 1,
            m <= 0x7FFF_FFFF,
            forall|a: u32| call_requires(dist, (a,)),
            forall|a: u32, b: u32| call_requires(between, (a, b)),
            forall|a: u32, l: u32| call_requires(read_neighbors, (a, l)),
            forall|a: u32| call_requires(is_deleted, (a,)),
            linked(
                near(*dist),
                gaps(*between),
                lists(*read_neighbors),
                flags(*is_deleted),
                node_id,
                m,
                ef_construction as int,
                top + 1,
                left as int,
                start,
                current,
                connections@,
            ),
        decreases left,
    {
        let layer: u32 = (left - 1) as u32;
        let ghost before = connections@;
        let next = link_layer(
            node_id,
            m,
            ef_construction,
            layer,
            current,
            &mut connections,
            dist,
            between,
            read_neighbors,
            is_deleted,
        );
        proof {
            let cut = before.len() as int;
            assert(connections@.take(cut) == before);
            assert(layer_linked(
                near(*dist),
                gaps(*between),
                lists(*read_neighbors),
                flags(*is_deleted),
                node_id,
                m,
                ef_construction as int,
                (left - 1) as u32,
                current,
                next,
                connections@.skip(cut),
            ));
            assert(linked(
                near(*dist),
                gaps(*between),
                lists(*read_neighbors),
                flags(*is_deleted),
                node_id,
                m,
                ef_construction as int,
                top + 1,
                left - 1 + 1,
                start,
                current,
                connections@.take(cut),
            ));
        }
        current = next;
        left -= 1;
    }
    let raised: bool = level > current_max_layer;
    let r = InsertResult {
        node_id,
        level,
        connections,
        new_entry_point: if raised {
            Some(node_id)
        } else {
            None
        },
        new_max_layer: if raised {
            Some(level)
        } else {
            None
        },
    };
    assert(entry_point == Some(ep));
    assert(inserted_from(
        near(*dist),
        gaps(*between),
        lists(*read_neighbors),
        flags(*is_deleted),
        node_id,
        level,
        ep,
        current_max_layer,
        m,
        ef_construction,
        start,
        current,
        r.connections@,
    ));
    proof {
        if ep != node_id && unlisted(lists(*read_neighbors), node_id) {
            reached_other(
                near(*dist),
                lists(*read_neighbors),
                flags(*is_deleted),
                current_max_layer as int,
                level as int,
                ep,
                start,
                node_id,
            );
            linked_cleanly(
                near(*dist),
                gaps(*between),
                lists(*read_neighbors),
                flags(*is_deleted),
                node_id,
                m,
                ef_construction as int,
                layers_shared(level, current_max_layer),
                0,
                start,
                current,
                r.connections@,
            );
        }
    }
    r
}

/// An entry of a node at a layer.
pub open spec fn entry_at(
    connections: Seq<(u32, u32, Vec<u32>)>,
    node: u32,
    layer: int,
    i: int,
) -> bool {
    0 <= i < connections.len() && connections[i].0 == node && connections[i].1 == layer
}

/// The node has an entry at the layer.
pub open spec fn has_entry(connections: Seq<(u32, u32, Vec<u32>)>, node: u32, layer: int) -> bool {
    exists|i: int| #[trigger] entry_at(connections, node, layer, i)
}

/// The connections of a new node at the layers from `bottom` to below `top`: at each
/// layer the node has exactly one entry, with at most `m` neighbors, each of which has
/// an entry at that layer; all entries are at these layers, and no list is too long.
pub open spec fn joined_cleanly(
    node: u32,
    m: u32,
    top: int,
    bottom: int,
    connections: Seq<(u32, u32, Vec<u32>)>,
) -> bool {
    &&& forall|i: int|
        0 <= i < connections.len() ==> {
            let c = #[trigger] connections[i];
            &&& bottom <= c.1 < top
            &&& c.2@.len() <= neighbor_cap(m, c.1)
            &&& c.0 == node ==> c.2@.len() <= m && !c.2@.contains(node) && forall|x: u32| #[trigger]
                c.2@.contains(x) ==> has_entry(connections, x, c.1 as int)
        }
    &&& forall|l: int| bottom <= l < top ==> #[trigger] has_entry(connections, node, l)
    &&& forall|i: int, j: int|
        0 <= i < j < connections.len() && (#[trigger] connections[i]).0 == node && (
        #[trigger] connections[j]).0 == node ==> connections[i].1 != connections[j].1
}

/// Walks do not lead to a node that is in no neighbor list.
proof fn descended_other(
    dist: Near,
    read_neighbors: Lists,
    is_deleted: Flags,
    top: int,
    target: int,
    a: Scored,
    b: Scored,
    x: u32,
)
    requires
        descended(dist, read_neighbors, is_deleted, top, target, a, b),
        unlisted(read_neighbors, x),
        a.0 != x,
    ensures
        b.0 != x,
    decreases top - target,
{
    if top > target {
        let path = choose|path: Seq<Scored>| #[trigger]
            walked(dist, read_neighbors, is_deleted, (target + 1) as u32, path) && path.last() == b
                && descended(dist, read_neighbors, is_deleted, top, target + 1, a, path[0]);
        descended_other(dist, read_neighbors, is_deleted, top, target + 1, a, path[0], x);
        if path.len() > 1 {
            let i = path.len() - 2;
            let layer = (target + 1) as u32;
            assert(hop(dist, read_neighbors, is_deleted, layer, path[i], path[i + 1]));
            let list = choose|list: Seq<u32>| #[trigger]
                read_neighbors(path[i].0, layer, list) && list.contains(b.0);
            assert(read_neighbors(path[i].0, layer, list));
        }
    }
}

proof fn reached_other(
    dist: Near,
    read_neighbors: Lists,
    is_deleted: Flags,
    top: int,
    target: int,
    entry: u32,
    r: u32,
    x: u32,
)
    requires
        reached(dist, read_neighbors, is_deleted, top, target, entry, r),
        unlisted(read_neighbors, x),
        entry != x,
    ensures
        r != x,
{
    if top > target {
        let (d, e) = choose|d: i64, e: i64| #[trigger]
            dist(entry, d) && #[trigger] dist(r, e) && descended(
                dist,
                read_neighbors,
                is_deleted,
                top,
                target,
                (entry, d),
                (r, e),
            );
        descended_other(dist, read_neighbors, is_deleted, top, target, (entry, d), (r, e), x);
    }
}

/// The entries of one layer.
proof fn layer_cleanly(
    dist: Near,
    between: Gaps,
    read_neighbors: Lists,
    is_deleted: Flags,
    node: u32,
    m: u32,
    ef: int,
    layer: u32,
    ep: u32,
    next: u32,
    block: Seq<(u32, u32, Vec<u32>)>,
)
    requires
        layer_linked(dist, between, read_neighbors, is_deleted, node, m, ef, layer, ep, next, block),
        unlisted(read_neighbors, node),
        ep != node,
    ensures
        joined_cleanly(node, m, layer + 1, layer as int, block),
        next != node,
{
    let found = choose|found: Seq<Scored>| #[trigger]
        layer_found(dist, read_neighbors, is_deleted, anyone(), seq![ep], ef, layer, found)
            && layer_linked_as(
            between,
            read_neighbors,
            is_deleted,
            node,
            m,
            layer,
            ep,
            next,
            block,
            found,
        );
    let (seen, order) = choose|seen: Map<u32, i64>, order: Seq<u32>| #[trigger]
        beam(dist, read_neighbors, is_deleted, anyone(), ef, layer, seen, Seq::empty(), found)
            && #[trigger] discovered(read_neighbors, layer, seq![ep], seen, order);
    never_discovered(read_neighbors, layer, seq![ep], seen, order, node);
    let r = ranked(found);
    let chosen = first_ids(r, m as int);
    ranking_orders(found);
    assert forall|i: int| 0 <= i < chosen.len() implies #[trigger] chosen[i] != node by {
        assert(chosen[i] == r[i].0);
        assert(r.contains(r[i]));
        let k = choose|k: int| 0 <= k < found.len() && found[k] == r[i];
        assert(seen.contains_key(found[k].0));
    }
    if found.len() > 0 {
        assert(seen.contains_key(found[0].0));
    }
    assert forall|i: int| 0 <= i < block.len() implies {
        let c = #[trigger] block[i];
        &&& layer <= c.1 < layer + 1
        &&& c.2@.len() <= neighbor_cap(m, c.1)
        &&& c.0 == node ==> i == 0
    } by {
        if i > 0 {
            let x = chosen[i - 1];
            assert(back_linked(between, read_neighbors, is_deleted, node, m, layer, x, block[i - 1 + 1]));
            let cap = neighbor_cap(m, layer);
            let list = choose|list: Seq<u32>| #[trigger]
                read_neighbors(x, layer, list) && {
                    let full = joined(list, node);
                    if full.len() > cap {
                        exists|scored: Seq<Scored>| #[trigger]
                            measured(between, is_deleted, x, full, scored) && block[i].2@
                                == first_ids(ranked(scored), cap)
                    } else {
                        block[i].2@ == full
                    }
                };
            assert(read_neighbors(x, layer, list));
        }
    }
    assert(entry_at(block, node, layer as int, 0));
    assert forall|l: int| layer <= l < layer + 1 implies #[trigger] has_entry(block, node, l) by {
        assert(l == layer);
    }
    assert forall|x: u32| #[trigger] chosen.contains(x) implies has_entry(block, x, layer as int) && x
        != node by {
        let i = choose|i: int| 0 <= i < chosen.len() && chosen[i] == x;
        assert(back_linked(between, read_neighbors, is_deleted, node, m, layer, chosen[i], block[i + 1]));
        assert(entry_at(block, x, layer as int, i + 1));
    }
}

/// See [`joined_cleanly`].
proof fn linked_cleanly(
    dist: Near,
    between: Gaps,
    read_neighbors: Lists,
    is_deleted: Flags,
    node: u32,
    m: u32,
    ef: int,
    top: int,
    bottom: int,
    ep: u32,
    next: u32,
    connections: Seq<(u32, u32, Vec<u32>)>,
)
    requires
        linked(
            dist,
            between,
            read_neighbors,
            is_deleted,
            node,
            m,
            ef,
            top,
            bottom,
            ep,
            next,
            connections,
        ),
        0 <= bottom,
        top <= u32::MAX as int + 1,
        unlisted(read_neighbors, node),
        ep != node,
    ensures
        joined_cleanly(node, m, top, bottom, connections),
        next != node,
    decreases top - bottom,
{
    if top > bottom {
        let (cut, mid) = choose|cut: int, mid: u32|
            0 <= cut <= connections.len() && linked(
                dist,
                between,
                read_neighbors,
                is_deleted,
                node,
                m,
                ef,
                top,
                bottom + 1,
                ep,
                mid,
                connections.take(cut),
            ) && #[trigger] layer_linked(
                dist,
                between,
                read_neighbors,
                is_deleted,
                node,
                m,
                ef,
                bottom as u32,
                mid,
                next,
                connections.skip(cut),
            );
        let a = connections.take(cut);
        let b = connections.skip(cut);
        linked_cleanly(
            dist,
            between,
            read_neighbors,
            is_deleted,
            node,
            m,
            ef,
            top,
            bottom + 1,
            ep,
            mid,
            a,
        );
        layer_cleanly(
            dist,
            between,
            read_neighbors,
            is_deleted,
            node,
            m,
            ef,
            bottom as u32,
            mid,
            next,
            b,
        );
        assert forall|x: u32, l: int| #[trigger] has_entry(a, x, l) implies has_entry(
            connections,
            x,
            l,
        ) by {
            let i = choose|i: int| #[trigger] entry_at(a, x, l, i);
            assert(entry_at(connections, x, l, i));
        }
        assert forall|x: u32, l: int| #[trigger] has_entry(b, x, l) implies has_entry(
            connections,
            x,
            l,
        ) by {
            let i = choose|i: int| #[trigger] entry_at(b, x, l, i);
            assert(entry_at(connections, x, l, cut + i));
        }
        assert forall|i: int| 0 <= i < connections.len() implies {
            let c = #[trigger] connections[i];
            &&& bottom <= c.1 < top
            &&& c.2@.len() <= neighbor_cap(m, c.1)
            &&& i < cut ==> c.1 > bottom
            &&& i >= cut ==> c.1 == bottom
            &&& c.0 == node ==> c.2@.len() <= m && !c.2@.contains(node) && forall|x: u32| #[trigger]
                c.2@.contains(x) ==> has_entry(connections, x, c.1 as int)
        } by {
            if i < cut {
                assert(a[i] == connections[i]);
            } else {
                assert(b[i - cut] == connections[i]);
            }
        }
        assert forall|l: int| bottom <= l < top implies #[trigger] has_entry(connections, node, l) by {
            if l > bottom {
                assert(has_entry(a, node, l));
            } else {
                assert(has_entry(b, node, l));
            }
        }
        assert forall|i: int, j: int|
            0 <= i < j < connections.len() && (#[trigger] connections[i]).0 == node && (
            #[trigger] connections[j]).0 == node implies connections[i].1 != connections[j].1 by {
            if j < cut {
                assert(a[i] == connections[i] && a[j] == connections[j]);
            } else if i >= cut {
                assert(b[i - cut] == connections[i] && b[j - cut] == connections[j]);
            }
        }
    }
}

/// The connections of a node that is not the first: those at each layer that it
/// shares with the graph, found from where the walks through the layers above its
/// own lead.
pub open spec fn inserted_from(
    dist: Near,
    between: Gaps,
    read_neighbors: Lists,
    is_deleted: Flags,
    node: u32,
    level: u32,
    ep: u32,
    max_layer: u32,
    m: u32,
    ef: u32,
    start: u32,
    last: u32,
    connections: Seq<(u32, u32, Vec<u32>)>,
) -> bool {
    &&& reached(dist, read_neighbors, is_deleted, max_layer as int, level as int, ep, start)
    &&& linked(
        dist,
        between,
        read_neighbors,
        is_deleted,
        node,
        m,
        ef as int,
        layers_shared(level, max_layer),
        0,
        start,
        last,
        connections,
    )
}

/// The number of layers at which a new node is connected.
pub open spec fn layers_shared(level: u32, max_layer: u32) -> int {
    if level <= max_layer {
        level + 1
    } else {
        max_layer + 1
    }
}

/// What may be found by one function may be found by another.
pub open spec fn near_within(a: Near, b: Near) -> bool {
    forall|v: u32, d: i64| #[trigger] a(v, d) ==> b(v, d)
}

/// What may be found by one function may be found by another.
pub open spec fn gaps_within(a: Gaps, b: Gaps) -> bool {
    forall|v: u32, w: u32, d: i64| #[trigger] a(v, w, d) ==> b(v, w, d)
}

/// What may be found by one function may be found by another.
pub open spec fn lists_within(a: Lists, b: Lists) -> bool {
    forall|v: u32, l: u32, s: Seq<u32>| #[trigger] a(v, l, s) ==> b(v, l, s)
}

/// What may be found by one function may be found by another.
pub open spec fn flags_within(a: Flags, b: Flags) -> bool {
    forall|v: u32, x: bool| #[trigger] a(v, x) ==> b(v, x)
}

proof fn layer_found_within(
    dist: Near,
    dist2: Near,
    read_neighbors: Lists,
    read_neighbors2: Lists,
    is_deleted: Flags,
    is_deleted2: Flags,
    is_allowed: Flags,
    is_allowed2: Flags,
    entries: Seq<u32>,
    ef: int,
    layer: u32,
    r: Seq<Scored>,
)
    requires
        near_within(dist, dist2),
        lists_within(read_neighbors, read_neighbors2),
        flags_within(is_deleted, is_deleted2),
        flags_within(is_allowed, is_allowed2),
        layer_found(dist, read_neighbors, is_deleted, is_allowed, entries, ef, layer, r),
    ensures
        layer_found(dist2, read_neighbors2, is_deleted2, is_allowed2, entries, ef, layer, r),
{
    let (seen, order) = choose|seen: Map<u32, i64>, order: Seq<u32>| #[trigger]
        beam(dist, read_neighbors, is_deleted, is_allowed, ef, layer, seen, Seq::empty(), r)
            && #[trigger] discovered(read_neighbors, layer, entries, seen, order) && (forall|i: int|
            0 <= i < entries.len() ==> seen.contains_key(#[trigger] entries[i]));
    assert(discovered(read_neighbors2, layer, entries, seen, order)) by {
        assert forall|i: int| 0 <= i < order.len() implies entries.contains(#[trigger] order[i])
            || led_to(read_neighbors2, layer, order.take(i), order[i]) by {
            if !entries.contains(order[i]) {
                let front = order.take(i);
                let j = choose|j: int|
                    0 <= j < front.len() && leads_to(
                        read_neighbors,
                        layer,
                        #[trigger] front[j],
                        order[i],
                    );
                let list = choose|list: Seq<u32>| #[trigger]
                    read_neighbors(front[j], layer, list) && list.contains(order[i]);
                assert(read_neighbors2(front[j], layer, list));
                assert(leads_to(read_neighbors2, layer, front[j], order[i]));
            }
        }
    }
    assert forall|v: u32| #[trigger] expanded(read_neighbors, layer, seen, v) implies expanded(
        read_neighbors2,
        layer,
        seen,
        v,
    ) by {
        let list = choose|list: Seq<u32>| #[trigger]
            read_neighbors(v, layer, list) && forall|i: int|
                0 <= i < list.len() ==> seen.contains_key(#[trigger] list[i]);
        assert(read_neighbors2(v, layer, list));
    }
    assert(forall|v: u32| #[trigger]
        shut(is_deleted, is_allowed, v) ==> shut(is_deleted2, is_allowed2, v));
    assert(beam(
        dist2,
        read_neighbors2,
        is_deleted2,
        is_allowed2,
        ef,
        layer,
        seen,
        Seq::empty(),
        r,
    ));
}

proof fn no_nearer_within(
    dist: Near,
    dist2: Near,
    is_deleted: Flags,
    is_deleted2: Flags,
    list: Seq<u32>,
    d: i64,
)
    requires
        near_within(dist, dist2),
        flags_within(is_deleted, is_deleted2),
        no_nearer(dist, is_deleted, list, d),
    ensures
        no_nearer(dist2, is_deleted2, list, d),
{
    assert forall|i: int| 0 <= i < list.len() implies far_enough(
        dist2,
        is_deleted2,
        #[trigger] list[i],
        d,
    ) by {
        let v = list[i];
        assert(far_enough(dist, is_deleted, v, d));
        if !is_deleted(v, true) {
            let e = choose|e: i64| #[trigger] dist(v, e) && e >= d;
            assert(dist2(v, e));
        }
    }
}

proof fn walked_within(
    dist: Near,
    dist2: Near,
    read_neighbors: Lists,
    read_neighbors2: Lists,
    is_deleted: Flags,
    is_deleted2: Flags,
    layer: u32,
    path: Seq<Scored>,
)
    requires
        near_within(dist, dist2),
        lists_within(read_neighbors, read_neighbors2),
        flags_within(is_deleted, is_deleted2),
        walked(dist, read_neighbors, is_deleted, layer, path),
    ensures
        walked(dist2, read_neighbors2, is_deleted2, layer, path),
{
    assert forall|i: int| 0 <= i < path.len() - 1 implies hop(
        dist2,
        read_neighbors2,
        is_deleted2,
        layer,
        #[trigger] path[i],
        path[i + 1],
    ) by {
        let a = path[i];
        let b = path[i + 1];
        assert(hop(dist, read_neighbors, is_deleted, layer, a, b));
        let list = choose|list: Seq<u32>| #[trigger]
            read_neighbors(a.0, layer, list) && list.contains(b.0) && no_nearer(
                dist,
                is_deleted,
                list,
                b.1,
            ) && b.1 < a.1 && is_deleted(b.0, false) && dist(b.0, b.1);
        no_nearer_within(dist, dist2, is_deleted, is_deleted2, list, b.1);
        assert(read_neighbors2(a.0, layer, list));
    }
    let a = path.last();
    let list = choose|list: Seq<u32>| #[trigger]
        read_neighbors(a.0, layer, list) && no_nearer(dist, is_deleted, list, a.1);
    no_nearer_within(dist, dist2, is_deleted, is_deleted2, list, a.1);
    assert(read_neighbors2(a.0, layer, list));
}

proof fn descended_within(
    dist: Near,
    dist2: Near,
    read_neighbors: Lists,
    read_neighbors2: Lists,
    is_deleted: Flags,
    is_deleted2: Flags,
    top: int,
    target: int,
    a: Scored,
    b: Scored,
)
    requires
        near_within(dist, dist2),
        lists_within(read_neighbors, read_neighbors2),
        flags_within(is_deleted, is_deleted2),
        descended(dist, read_neighbors, is_deleted, top, target, a, b),
    ensures
        descended(dist2, read_neighbors2, is_deleted2, top, target, a, b),
    decreases top - target,
{
    if top > target {
        let path = choose|path: Seq<Scored>| #[trigger]
            walked(dist, read_neighbors, is_deleted, (target + 1) as u32, path) && path.last() == b
                && descended(dist, read_neighbors, is_deleted, top, target + 1, a, path[0]);
        walked_within(
            dist,
            dist2,
            read_neighbors,
            read_neighbors2,
            is_deleted,
            is_deleted2,
            (target + 1) as u32,
            path,
        );
        descended_within(
            dist,
            dist2,
            read_neighbors,
            read_neighbors2,
            is_deleted,
            is_deleted2,
            top,
            target + 1,
            a,
            path[0],
        );
    }
}

proof fn reached_within(
    dist: Near,
    dist2: Near,
    read_neighbors: Lists,
    read_neighbors2: Lists,
    is_deleted: Flags,
    is_deleted2: Flags,
    top: int,
    target: int,
    entry: u32,
    r: u32,
)
    requires
        near_within(dist, dist2),
        lists_within(read_neighbors, read_neighbors2),
        flags_within(is_deleted, is_deleted2),
        reached(dist, read_neighbors, is_deleted, top, target, entry, r),
    ensures
        reached(dist2, read_neighbors2, is_deleted2, top, target, entry, r),
{
    if top > target {
        let (d, e) = choose|d: i64, e: i64| #[trigger]
            dist(entry, d) && #[trigger] dist(r, e) && descended(
                dist,
                read_neighbors,
                is_deleted,
                top,
                target,
                (entry, d),
                (r, e),
            );
        descended_within(
            dist,
            dist2,
            read_neighbors,
            read_neighbors2,
            is_deleted,
            is_deleted2,
            top,
            target,
            (entry, d),
            (r, e),
        );
        assert(dist2(entry, d) && dist2(r, e));
    }
}

/// What a search finds depends on no more than what its functions return.
pub proof fn nearest_found_within(
    dist: Near,
    dist2: Near,
    read_neighbors: Lists,
    read_neighbors2: Lists,
    is_deleted: Flags,
    is_deleted2: Flags,
    is_allowed: Flags,
    is_allowed2: Flags,
    k: u32,
    ef_search: u32,
    entry_point: u32,
    max_layer: u32,
    r: Seq<Scored>,
)
    requires
        near_within(dist, dist2),
        lists_within(read_neighbors, read_neighbors2),
        flags_within(is_deleted, is_deleted2),
        flags_within(is_allowed, is_allowed2),
        nearest_found(
            dist,
            read_neighbors,
            is_deleted,
            is_allowed,
            k,
            ef_search,
            entry_point,
            max_layer,
            r,
        ),
    ensures
        nearest_found(
            dist2,
            read_neighbors2,
            is_deleted2,
            is_allowed2,
            k,
            ef_search,
            entry_point,
            max_layer,
            r,
        ),
{
    let w = beam_width(k, ef_search);
    let (start, full) = choose|start: u32, full: Seq<Scored>| #[trigger]
        layer_found(dist, read_neighbors, is_deleted, is_allowed, seq![start], w, 0, full)
            && reached(
            dist,
            read_neighbors,
            is_deleted,
            max_layer as int,
            0,
            entry_point,
            start,
        ) && r == full.take(
            if k < full.len() {
                k as int
            } else {
                full.len() as int
            },
        );
    layer_found_within(
        dist,
        dist2,
        read_neighbors,
        read_neighbors2,
        is_deleted,
        is_deleted2,
        is_allowed,
        is_allowed2,
        seq![start],
        w,
        0,
        full,
    );
    reached_within(
        dist,
        dist2,
        read_neighbors,
        read_neighbors2,
        is_deleted,
        is_deleted2,
        max_layer as int,
        0,
        entry_point,
        start,
    );
}

/// What a search finds is sorted, holds no node twice, no more than `k` nodes, and
/// none that is deleted or not allowed.
pub proof fn found_are_open(
    dist: Near,
    read_neighbors: Lists,
    is_deleted: Flags,
    is_allowed: Flags,
    k: u32,
    ef_search: u32,
    entry_point: u32,
    max_layer: u32,
    r: Seq<Scored>,
)
    requires
        nearest_found(
            dist,
            read_neighbors,
            is_deleted,
            is_allowed,
            k,
            ef_search,
            entry_point,
            max_layer,
            r,
        ),
    ensures
        near_first(r),
        r.len() <= k,
        forall|i: int, j: int| 0 <= i < j < r.len() ==> (#[trigger] r[i]).0 != (#[trigger] r[j]).0,
        forall|i: int|
            0 <= i < r.len() ==> is_deleted((#[trigger] r[i]).0, false) && is_allowed(r[i].0, true)
                && dist(r[i].0, r[i].1),
{
    let w = beam_width(k, ef_search);
    let (start, full) = choose|start: u32, full: Seq<Scored>| #[trigger]
        layer_found(dist, read_neighbors, is_deleted, is_allowed, seq![start], w, 0, full)
            && reached(
            dist,
            read_neighbors,
            is_deleted,
            max_layer as int,
            0,
            entry_point,
            start,
        ) && r == full.take(
            if k < full.len() {
                k as int
            } else {
                full.len() as int
            },
        );
    assert forall|i: int| 0 <= i < r.len() implies is_deleted((#[trigger] r[i]).0, false)
        && is_allowed(r[i].0, true) && dist(r[i].0, r[i].1) by {
        assert(r[i] == full[i]);
    }
}

/// Nodes among which are the entry points and all neighbors of each, and of which
/// each is shut or in the result.
pub open spec fn everything(
    read_neighbors: Lists,
    is_deleted: Flags,
    is_allowed: Flags,
    layer: u32,
    entries: Seq<u32>,
    all: Map<u32, i64>,
    r: Seq<Scored>,
) -> bool {
    &&& forall|i: int| 0 <= i < entries.len() ==> all.contains_key(#[trigger] entries[i])
    &&& forall|v: u32| #[trigger]
        all.contains_key(v) ==> expanded(read_neighbors, layer, all, v)
    &&& forall|v: u32| #[trigger]
        all.contains_key(v) ==> shut(is_deleted, is_allowed, v) || r.contains((v, all[v]))
}

/// A beam that is not filled has found the nodes that can be reached and are not shut:
/// all of them, and no others.
pub proof fn unfilled_beam_complete(
    dist: Near,
    read_neighbors: Lists,
    is_deleted: Flags,
    is_allowed: Flags,
    entries: Seq<u32>,
    ef: int,
    layer: u32,
    r: Seq<Scored>,
)
    requires
        layer_found(dist, read_neighbors, is_deleted, is_allowed, entries, ef, layer, r),
        r.len() < ef,
    ensures
        exists|all: Map<u32, i64>, order: Seq<u32>| #[trigger]
            everything(read_neighbors, is_deleted, is_allowed, layer, entries, all, r)
                && #[trigger] discovered(read_neighbors, layer, entries, all, order),
{
    let (seen, order) = choose|seen: Map<u32, i64>, order: Seq<u32>| #[trigger]
        beam(dist, read_neighbors, is_deleted, is_allowed, ef, layer, seen, Seq::empty(), r)
            && #[trigger] discovered(read_neighbors, layer, entries, seen, order) && (forall|i: int|
            0 <= i < entries.len() ==> seen.contains_key(#[trigger] entries[i]));
    assert(everything(read_neighbors, is_deleted, is_allowed, layer, entries, seen, r));
}

proof fn measured_within(
    between: Gaps,
    between2: Gaps,
    is_deleted: Flags,
    is_deleted2: Flags,
    node: u32,
    list: Seq<u32>,
    out: Seq<Scored>,
)
    requires
        gaps_within(between, between2),
        flags_within(is_deleted, is_deleted2),
        measured(between, is_deleted, node, list, out),
    ensures
        measured(between2, is_deleted2, node, list, out),
    decreases list.len(),
{
    if list.len() > 0 {
        let n = list.last();
        if is_deleted(n, true) && measured(between, is_deleted, node, list.drop_last(), out) {
            measured_within(
                between,
                between2,
                is_deleted,
                is_deleted2,
                node,
                list.drop_last(),
                out,
            );
        } else {
            measured_within(
                between,
                between2,
                is_deleted,
                is_deleted2,
                node,
                list.drop_last(),
                out.drop_last(),
            );
        }
    }
}

proof fn back_linked_within(
    between: Gaps,
    between2: Gaps,
    read_neighbors: Lists,
    read_neighbors2: Lists,
    is_deleted: Flags,
    is_deleted2: Flags,
    node: u32,
    m: u32,
    layer: u32,
    neighbor: u32,
    entry: (u32, u32, Vec<u32>),
)
    requires
        gaps_within(between, between2),
        lists_within(read_neighbors, read_neighbors2),
        flags_within(is_deleted, is_deleted2),
        back_linked(between, read_neighbors, is_deleted, node, m, layer, neighbor, entry),
    ensures
        back_linked(between2, read_neighbors2, is_deleted2, node, m, layer, neighbor, entry),
{
    let cap = neighbor_cap(m, layer);
    let out = entry.2@;
    let list = choose|list: Seq<u32>| #[trigger]
        read_neighbors(neighbor, layer, list) && {
            let full = joined(list, node);
            if full.len() > cap {
                exists|scored: Seq<Scored>| #[trigger]
                    measured(between, is_deleted, neighbor, full, scored) && out == first_ids(
                        ranked(scored),
                        cap,
                    )
            } else {
                out == full
            }
        };
    let full = joined(list, node);
    if full.len() > cap {
        let scored = choose|scored: Seq<Scored>| #[trigger]
            measured(between, is_deleted, neighbor, full, scored) && out == first_ids(
                ranked(scored),
                cap,
            );
        measured_within(between, between2, is_deleted, is_deleted2, neighbor, full, scored);
    }
    assert(read_neighbors2(neighbor, layer, list));
}

proof fn linked_within(
    dist: Near,
    dist2: Near,
    between: Gaps,
    between2: Gaps,
    read_neighbors: Lists,
    read_neighbors2: Lists,
    is_deleted: Flags,
    is_deleted2: Flags,
    node: u32,
    m: u32,
    ef: int,
    top: int,
    bottom: int,
    ep: u32,
    next: u32,
    connections: Seq<(u32, u32, Vec<u32>)>,
)
    requires
        near_within(dist, dist2),
        gaps_within(between, between2),
        lists_within(read_neighbors, read_neighbors2),
        flags_within(is_deleted, is_deleted2),
        linked(
            dist,
            between,
            read_neighbors,
            is_deleted,
            node,
            m,
            ef,
            top,
            bottom,
            ep,
            next,
            connections,
        ),
    ensures
        linked(
            dist2,
            between2,
            read_neighbors2,
            is_deleted2,
            node,
            m,
            ef,
            top,
            bottom,
            ep,
            next,
            connections,
        ),
    decreases top - bottom,
{
    if top > bottom {
        let layer = bottom as u32;
        let (cut, mid) = choose|cut: int, mid: u32|
            0 <= cut <= connections.len() && linked(
                dist,
                between,
                read_neighbors,
                is_deleted,
                node,
                m,
                ef,
                top,
                bottom + 1,
                ep,
                mid,
                connections.take(cut),
            ) && #[trigger] layer_linked(
                dist,
                between,
                read_neighbors,
                is_deleted,
                node,
                m,
                ef,
                layer,
                mid,
                next,
                connections.skip(cut),
            );
        linked_within(
            dist,
            dist2,
            between,
            between2,
            read_neighbors,
            read_neighbors2,
            is_deleted,
            is_deleted2,
            node,
            m,
            ef,
            top,
            bottom + 1,
            ep,
            mid,
            connections.take(cut),
        );
        let block = connections.skip(cut);
        let found = choose|found: Seq<Scored>| #[trigger]
            layer_found(dist, read_neighbors, is_deleted, anyone(), seq![mid], ef, layer, found)
                && layer_linked_as(
                between,
                read_neighbors,
                is_deleted,
                node,
                m,
                layer,
                mid,
                next,
                block,
                found,
            );
        layer_found_within(
            dist,
            dist2,
            read_neighbors,
            read_neighbors2,
            is_deleted,
            is_deleted2,
            anyone(),
            anyone(),
            seq![mid],
            ef,
            layer,
            found,
        );
        let chosen = first_ids(ranked(found), m as int);
        assert forall|i: int| 0 <= i < chosen.len() implies back_linked(
            between2,
            read_neighbors2,
            is_deleted2,
            node,
            m,
            layer,
            #[trigger] chosen[i],
            block[i + 1],
        ) by {
            back_linked_within(
                between,
                between2,
                read_neighbors,
                read_neighbors2,
                is_deleted,
                is_deleted2,
                node,
                m,
                layer,
                chosen[i],
                block[i + 1],
            );
        }
        assert(layer_linked(
            dist2,
            between2,
            read_neighbors2,
            is_deleted2,
            node,
            m,
            ef,
            layer,
            mid,
            next,
            block,
        ));
    }
}

/// What an insert changes depends on no more than what its functions return.
pub proof fn inserted_from_within(
    dist: Near,
    dist2: Near,
    between: Gaps,
    between2: Gaps,
    read_neighbors: Lists,
    read_neighbors2: Lists,
    is_deleted: Flags,
    is_deleted2: Flags,
    node: u32,
    level: u32,
    ep: u32,
    max_layer: u32,
    m: u32,
    ef: u32,
    start: u32,
    last: u32,
    connections: Seq<(u32, u32, Vec<u32>)>,
)
    requires
        near_within(dist, dist2),
        gaps_within(between, between2),
        lists_within(read_neighbors, read_neighbors2),
        flags_within(is_deleted, is_deleted2),
        inserted_from(
            dist,
            between,
            read_neighbors,
            is_deleted,
            node,
            level,
            ep,
            max_layer,
            m,
            ef,
            start,
            last,
            connections,
        ),
    ensures
        inserted_from(
            dist2,
            between2,
            read_neighbors2,
            is_deleted2,
            node,
            level,
            ep,
            max_layer,
            m,
            ef,
            start,
            last,
            connections,
        ),
{
    reached_within(
        dist,
        dist2,
        read_neighbors,
        read_neighbors2,
        is_deleted,
        is_deleted2,
        max_layer as int,
        level as int,
        ep,
        start,
    );
    linked_within(
        dist,
        dist2,
        between,
        between2,
        read_neighbors,
        read_neighbors2,
        is_deleted,
        is_deleted2,
        node,
        m,
        ef as int,
        layers_shared(level, max_layer),
        0,
        start,
        last,
        connections,
    );
}

}
