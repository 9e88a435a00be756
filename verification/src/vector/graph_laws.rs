//! How a new node is linked into the graph of a vector collection.

use crate::vector::collection;
use crate::vector::collection::Measure;
use crate::vector::hnsw;
use crate::vector::vecfile::FileView;
use vstd::prelude::*;

verus! {

/// A list of neighbors of a new node holds no more than fit, and the nearest nodes in use of
/// all that were seen. A neighbor of a node that was seen was passed by only after as many
/// nodes in use as `ef` says were seen, none of them farther than that node.
pub open spec fn holds_nearest(
    dist: hnsw::Near,
    lists: hnsw::Lists,
    gone: hnsw::Flags,
    m: u32,
    ef: int,
    layer: u32,
    list: Seq<u32>,
    seen: Map<u32, i64>,
    best: Seq<u32>,
) -> bool {
    &&& list.len() <= m
    &&& list.no_duplicates()
    &&& forall|v: u32| #[trigger] seen.contains_key(v) ==> dist(v, seen[v])
    &&& forall|i: int|
        0 <= i < list.len() ==> seen.contains_key(#[trigger] list[i]) && gone(list[i], false)
    &&& forall|v: u32| #[trigger]
        seen.contains_key(v) ==> list.contains(v) || gone(v, true) || (list.len() >= if ef < m {
            ef
        } else {
            m as int
        } && forall|i: int| 0 <= i < list.len() ==> seen[#[trigger] list[i]] <= seen[v])
    &&& best.no_duplicates()
    &&& forall|i: int|
        0 <= i < best.len() ==> seen.contains_key(#[trigger] best[i]) && gone(best[i], false)
    &&& forall|v: u32| #[trigger]
        seen.contains_key(v) ==> hnsw::expanded(lists, layer, seen, v) || (best.len() >= ef
            && forall|i: int| 0 <= i < best.len() ==> seen[#[trigger] best[i]] <= seen[v])
}

/// The new node is linked at a layer. See [`holds_nearest`].
pub open spec fn joins_layer(
    dist: hnsw::Near,
    lists: hnsw::Lists,
    gone: hnsw::Flags,
    node: u32,
    m: u32,
    ef: int,
    layer: u32,
    connections: Seq<(u32, u32, Vec<u32>)>,
) -> bool {
    exists|i: int, seen: Map<u32, i64>, best: Seq<u32>|
        0 <= i < connections.len() && connections[i].0 == node && connections[i].1 == layer
            && #[trigger] holds_nearest(
            dist,
            lists,
            gone,
            m,
            ef,
            layer,
            connections[i].2@,
            seen,
            best,
        )
}

proof fn layer_is_joined(
    dist: hnsw::Near,
    between: hnsw::Gaps,
    lists: hnsw::Lists,
    gone: hnsw::Flags,
    node: u32,
    m: u32,
    ef: int,
    layer: u32,
    ep: u32,
    next: u32,
    block: Seq<(u32, u32, Vec<u32>)>,
)
    requires
        hnsw::layer_linked(dist, between, lists, gone, node, m, ef, layer, ep, next, block),
    ensures
        joins_layer(dist, lists, gone, node, m, ef, layer, block),
{
    let found = choose|found: Seq<hnsw::Scored>| #[trigger]
        hnsw::layer_found(dist, lists, gone, hnsw::anyone(), seq![ep], ef, layer, found)
            && hnsw::layer_linked_as(
            between,
            lists,
            gone,
            node,
            m,
            layer,
            ep,
            next,
            block,
            found,
        );
    let (seen, order) = choose|seen: Map<u32, i64>, order: Seq<u32>| #[trigger]
        hnsw::beam(dist, lists, gone, hnsw::anyone(), ef, layer, seen, Seq::empty(), found)
            && #[trigger] hnsw::discovered(lists, layer, seq![ep], seen, order) && (forall|i: int|
            0 <= i < seq![ep].len() ==> seen.contains_key(#[trigger] seq![ep][i]));
    let all = hnsw::ranked(found);
    let list = hnsw::first_ids(all, m as int);
    let best = Seq::new(found.len(), |i: int| found[i].0);
    hnsw::ranking_orders(found);
    ranked_stay(found);
    kept_ids(found, seen, best);
    assert forall|i: int| 0 <= i < all.len() implies found.contains(#[trigger] all[i]) && seen[all[i].0]
        == all[i].1 && seen.contains_key(all[i].0) && gone(all[i].0, false) by {
        assert(all.contains(all[i]));
        let x = choose|x: int| 0 <= x < found.len() && found[x] == all[i];
        assert(found[x].1 == all[i].1);
    }
    assert forall|i: int| 0 <= i < list.len() implies #[trigger] list[i] == all[i].0 by {}
    assert(list.no_duplicates()) by {
        assert forall|i: int, j: int| 0 <= i < list.len() && 0 <= j < list.len() && i != j implies list[i]
            != list[j] by {
            assert(best[i] != best[j]);
        }
    }
    assert forall|v: u32| #[trigger] seen.contains_key(v) implies list.contains(v) || gone(v, true)
        || (list.len() >= if ef < m {
        ef
    } else {
        m as int
    } && forall|i: int| 0 <= i < list.len() ==> seen[#[trigger] list[i]] <= seen[v]) by {
        if !gone(v, true) && !list.contains(v) {
            if found.contains((v, seen[v])) {
                assert(all.contains((v, seen[v])));
                let n = choose|n: int| 0 <= n < all.len() && all[n] == (v, seen[v]);
                if n < list.len() {
                    assert(list[n] == v);
                }
                assert forall|i: int| 0 <= i < list.len() implies seen[#[trigger] list[i]] <= seen[v] by {
                    assert(all[i].1 <= all[n].1);
                }
            } else {
                assert(hnsw::beaten(found, ef, seen[v]));
                assert forall|i: int| 0 <= i < list.len() implies seen[#[trigger] list[i]] <= seen[v] by {
                    assert(found.contains(all[i]));
                    let x = choose|x: int| 0 <= x < found.len() && found[x] == all[i];
                    assert(found[x].1 <= seen[v]);
                }
            }
        }
    }
    assert forall|v: u32| #[trigger] seen.contains_key(v) implies hnsw::expanded(
        lists,
        layer,
        seen,
        v,
    ) || (best.len() >= ef && forall|i: int|
        0 <= i < best.len() ==> seen[#[trigger] best[i]] <= seen[v]) by {
        if !hnsw::expanded(lists, layer, seen, v) {
            assert(hnsw::beaten(found, ef, seen[v]));
            assert forall|i: int| 0 <= i < best.len() implies seen[#[trigger] best[i]] <= seen[v] by {
                assert(found[i].1 <= seen[v]);
            }
        }
    }
    assert forall|i: int| 0 <= i < best.len() implies seen.contains_key(#[trigger] best[i]) && gone(
        best[i],
        false,
    ) by {
        assert(gone(found[i].0, false));
    }
    assert(holds_nearest(dist, lists, gone, m, ef, layer, block[0].2@, seen, best));
}

/// What is in order stays as it is.
proof fn ranked_stay(s: Seq<hnsw::Scored>)
    requires
        hnsw::near_first(s),
    ensures
        hnsw::ranked(s) == s,
    decreases s.len(),
{
    if s.len() == 0 {
        assert(hnsw::ranked(s) =~= s);
    } else {
        let front = s.drop_last();
        assert forall|i: int, j: int| 0 <= i < j < front.len() implies (#[trigger] front[i]).1 <= (
        #[trigger] front[j]).1 by {
            assert(s[i].1 <= s[j].1);
        }
        ranked_stay(front);
        if front.len() > 0 {
            assert(s[front.len() - 1].1 <= s[s.len() - 1].1);
            assert(front.last() == s[front.len() - 1]);
        }
        assert(hnsw::slot(front, s.last().1) == front.len());
        assert(front.insert(front.len() as int, s.last()) =~= s);
    }
}

proof fn kept_ids(found: Seq<hnsw::Scored>, seen: Map<u32, i64>, best: Seq<u32>)
    requires
        best == Seq::new(found.len(), |i: int| found[i].0),
        forall|i: int, j: int|
            0 <= i < j < found.len() ==> (#[trigger] found[i]).0 != (#[trigger] found[j]).0,
    ensures
        best.no_duplicates(),
{
    assert forall|i: int, j: int| 0 <= i < best.len() && 0 <= j < best.len() && i != j implies best[i]
        != best[j] by {
        if i < j {
            assert(found[i].0 != found[j].0);
        } else {
            assert(found[j].0 != found[i].0);
        }
    }
}

/// A new node that is not the first is linked at each layer that it shares with the others.
pub proof fn new_node_joins_its_layers(
    dist: hnsw::Near,
    between: hnsw::Gaps,
    lists: hnsw::Lists,
    gone: hnsw::Flags,
    node: u32,
    level: u32,
    ep: u32,
    max_layer: u32,
    m: u32,
    ef: u32,
    start: u32,
    last: u32,
    connections: Seq<(u32, u32, Vec<u32>)>,
    layer: u32,
)
    requires
        hnsw::inserted_from(
            dist,
            between,
            lists,
            gone,
            node,
            level,
            ep,
            max_layer,
            m,
            ef,
            start,
            last,
            connections,
        ),
        layer <= level,
        layer <= max_layer,
    ensures
        joins_layer(dist, lists, gone, node, m, ef as int, layer, connections),
{
    layers_are_joined(
        dist,
        between,
        lists,
        gone,
        node,
        m,
        ef as int,
        hnsw::layers_shared(level, max_layer),
        0,
        start,
        last,
        connections,
        layer,
    );
}

/// A vector that is inserted into a collection is linked as the options of the collection say,
/// by the distances from it, to nodes that are not deleted.
pub proof fn insert_joins_the_layers(
    g: Measure,
    f: FileView,
    node: u32,
    level: u32,
    connections: Seq<(u32, u32, Vec<u32>)>,
    layer: u32,
)
    requires
        collection::planned(g, f, node, level, connections),
        f.header.entry_point is Some,
        layer <= level,
        layer <= f.header.max_layer,
    ensures
        joins_layer(
            collection::from_vector(g, f, f.vector_of(node)),
            collection::linked_in(f),
            collection::gone_in(f),
            node,
            f.header.m,
            f.header.ef_construction as int,
            layer,
            connections,
        ),
{
    let h = f.header;
    let ep = h.entry_point->0;
    let (start, last) = choose|start: u32, last: u32| #[trigger]
        hnsw::inserted_from(
            collection::from_vector(g, f, f.vector_of(node)),
            collection::among(g, f),
            collection::linked_in(f),
            collection::gone_in(f),
            node,
            level,
            ep,
            h.max_layer,
            h.m,
            h.ef_construction,
            start,
            last,
            connections,
        );
    new_node_joins_its_layers(
        collection::from_vector(g, f, f.vector_of(node)),
        collection::among(g, f),
        collection::linked_in(f),
        collection::gone_in(f),
        node,
        level,
        ep,
        h.max_layer,
        h.m,
        h.ef_construction,
        start,
        last,
        connections,
        layer,
    );
}

proof fn layers_are_joined(
    dist: hnsw::Near,
    between: hnsw::Gaps,
    lists: hnsw::Lists,
    gone: hnsw::Flags,
    node: u32,
    m: u32,
    ef: int,
    top: int,
    bottom: int,
    ep: u32,
    next: u32,
    connections: Seq<(u32, u32, Vec<u32>)>,
    layer: u32,
)
    requires
        hnsw::linked(dist, between, lists, gone, node, m, ef, top, bottom, ep, next, connections),
        0 <= bottom <= layer < top,
    ensures
        joins_layer(dist, lists, gone, node, m, ef, layer, connections),
    decreases top - bottom,
{
    let (cut, mid) = choose|cut: int, mid: u32|
        0 <= cut <= connections.len() && hnsw::linked(
            dist,
            between,
            lists,
            gone,
            node,
            m,
            ef,
            top,
            bottom + 1,
            ep,
            mid,
            connections.take(cut),
        ) && #[trigger] hnsw::layer_linked(
            dist,
            between,
            lists,
            gone,
            node,
            m,
            ef,
            bottom as u32,
            mid,
            next,
            connections.skip(cut),
        );
    if layer == bottom {
        let block = connections.skip(cut);
        layer_is_joined(dist, between, lists, gone, node, m, ef, layer, mid, next, block);
        let (i, seen, best) = choose|i: int, seen: Map<u32, i64>, best: Seq<u32>|
            0 <= i < block.len() && block[i].0 == node && block[i].1 == layer
                && #[trigger] holds_nearest(
                dist,
                lists,
                gone,
                m,
                ef,
                layer,
                block[i].2@,
                seen,
                best,
            );
        assert(connections[cut + i] == block[i]);
        assert(holds_nearest(dist, lists, gone, m, ef, layer, connections[cut + i].2@, seen, best));
    } else {
        let above = connections.take(cut);
        layers_are_joined(
            dist,
            between,
            lists,
            gone,
            node,
            m,
            ef,
            top,
            bottom + 1,
            ep,
            mid,
            above,
            layer,
        );
        let (i, seen, best) = choose|i: int, seen: Map<u32, i64>, best: Seq<u32>|
            0 <= i < above.len() && above[i].0 == node && above[i].1 == layer
                && #[trigger] holds_nearest(
                dist,
                lists,
                gone,
                m,
                ef,
                layer,
                above[i].2@,
                seen,
                best,
            );
        assert(connections[i] == above[i]);
        assert(holds_nearest(dist, lists, gone, m, ef, layer, connections[i].2@, seen, best));
    }
}

}
