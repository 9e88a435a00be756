//! What the log of a vector collection keeps: a collection that is opened again holds what
//! was last done to it.

use crate::vector::collection;
use crate::vector::collection::{Measure, VectorCollection};
use crate::vector::vecfile;
use crate::vector::vecfile::FileView;
use crate::vector::wal;
use crate::vector::wal::EntryView;
use vstd::prelude::*;

verus! {

/// From a file and a log what a collection holds can be had again.
pub open spec fn carried(
    saved: FileView,
    log: Seq<u8>,
    key: Option<Seq<u8>>,
    txs: Seq<Seq<EntryView>>,
    f: FileView,
) -> bool {
    &&& wal::holds_txs(log, key, txs)
    &&& collection::replayed_log(saved, txs) == Some(f)
    &&& log.len() == 0 <==> txs.len() == 0
}

/// With an empty log, the file holds it all.
pub proof fn saved_is_carried(f: FileView, key: Option<Seq<u8>>)
    ensures
        carried(f, Seq::empty(), key, Seq::empty(), f),
{
    wal::empty_log(key);
}

proof fn one_more(
    saved: FileView,
    a: Seq<u8>,
    b: Seq<u8>,
    key: Option<Seq<u8>>,
    txs: Seq<Seq<EntryView>>,
    es: Seq<EntryView>,
    f: FileView,
    g: FileView,
)
    requires
        carried(saved, a, key, txs, f),
        wal::loggable(es),
        wal::appended_all(a, b, key, es.push(EntryView::Commit)),
        collection::replayed_all(f, es) == Some(g),
    ensures
        carried(saved, b, key, txs.push(es), g),
{
    let all = es.push(EntryView::Commit);
    wal::commit_read_back(a, b, key, txs, es);
    assert(txs.push(es).drop_last() =~= txs);
    let mid = choose|mid: Seq<u8>|
        wal::appended_all(a, mid, key, all.drop_last()) && #[trigger] wal::appended(
            mid,
            b,
            key,
            all.last(),
        );
    if key is None {
        let e = all.last();
        crate::bytes::le32_round_trip(wal::entry_bytes(e).len() as u32);
        reveal(wal::frame);
        assert(wal::frame(e).len() >= 4);
    }
    assert(b.len() > 0);
}

/// A delete is carried by the log.
pub proof fn delete_is_carried(
    saved: FileView,
    a: VectorCollection,
    b: VectorCollection,
    txs: Seq<Seq<EntryView>>,
    rowid: u64,
)
    requires
        a@.wf(),
        vecfile::header_storable(a@.file.header),
        collection::delete_outcome(a, b, rowid, Ok(())),
        carried(saved, a.wal.log@, a.vecfile.key(), txs, a@.file),
    ensures
        exists|es: Seq<EntryView>| #[trigger]
            carried(saved, b.wal.log@, a.vecfile.key(), txs.push(es), b@.file),
{
    let node = a@.nodes[rowid];
    let es = collection::delete_entries(a@.file, node);
    collection::delete_replayed(a@.file, node);
    assert(wal::loggable(es)) by {
        wal::entry_len(es[0]);
        wal::entry_len(es[1]);
    }
    one_more(
        saved,
        a.wal.log@,
        b.wal.log@,
        a.vecfile.key(),
        txs,
        es,
        a@.file,
        b@.file,
    );
}

/// An insert is carried by the log.
pub proof fn insert_is_carried(
    g: Measure,
    saved: FileView,
    a: VectorCollection,
    b: VectorCollection,
    txs: Seq<Seq<EntryView>>,
    rowid: u64,
    vector: Seq<u32>,
    layer: u32,
    node: u32,
)
    requires
        a@.wf(),
        vecfile::header_storable(a@.file.header),
        forall|n: u32|
            a@.file.header.node_count <= n < a@.file.header.node_capacity
                ==> #[trigger] a@.file.deleted[n as int] == 0,
        collection::insert_outcome(g, a, b, rowid, vector, layer, Ok(node)),
        carried(saved, a.wal.log@, a.vecfile.key(), txs, a@.file),
    ensures
        exists|es: Seq<EntryView>| #[trigger]
            carried(saved, b.wal.log@, a.vecfile.key(), txs.push(es), b@.file),
{
    let f = a@.file;
    let key = a.vecfile.key();
    let f2 = collection::with_new_node(f, vector, layer);
    let connections = choose|connections: Seq<(u32, u32, Vec<u32>)>|
        {
            &&& #[trigger] collection::planned(g, f2, node, layer, connections)
            &&& b@.file == collection::with_inserted(f, vector, layer, connections)
            &&& wal::appended_all(
                a.wal.log@,
                b.wal.log@,
                key,
                collection::insert_entries(f, vector, layer, connections).push(EntryView::Commit),
            )
        };
    let es = collection::insert_entries(f, vector, layer, connections);
    collection::insert_replayed(g, f, vector, layer, connections);
    assert(node < f2.header.node_capacity);
    collection::plan_short(g, f2, node, layer, connections);
    assert forall|i: int| 0 <= i < es.len() implies wal::countable(#[trigger] es[i])
        && wal::entry_bytes(es[i]).len() + 28 <= u32::MAX && es[i] != EntryView::Commit by {
        if 0 < i <= connections.len() {
            assert(connections[i - 1].2@.len() <= 2 * f2.header.m);
        }
        wal::entry_len(es[i]);
    }
    one_more(saved, a.wal.log@, b.wal.log@, key, txs, es, f, b@.file);
}

/// A collection that is opened from a file that was saved, and from the log since then,
/// holds what it held last.
pub proof fn reopened_holds_all(
    raw: Seq<u8>,
    saved: FileView,
    log: Seq<u8>,
    key: Option<Seq<u8>>,
    txs: Seq<Seq<EntryView>>,
    f: FileView,
    g: FileView,
)
    requires
        saved.wf(),
        vecfile::header_storable(saved.header),
        vecfile::plain_bytes(raw, key) matches Some(b) && vecfile::image_of(b, saved),
        carried(saved, log, key, txs, f),
        collection::recovered(raw, log, key, g),
    ensures
        g == f,
{
    let b = vecfile::plain_bytes(raw, key)->0;
    let h = choose|h: FileView| #[trigger]
        vecfile::reads_as(b, h) && h.wf() && vecfile::header_storable(h.header) && if log.len()
            == 0 {
            g == h
        } else {
            collection::transactions(log, key) matches Some(all) && collection::replayed_log(h, all)
                == Some(g)
        };
    vecfile::image_read_back(b, saved, h);
    if log.len() > 0 {
        assert(log.subrange(0, log.len() as int) =~= log);
        assert(wal::begins(log, log));
        assert(wal::next_entry(log, key, log.len() as int) == wal::ParsedView::End);
        assert(collection::transactions(log, key) == Some(txs));
    }
}

}
