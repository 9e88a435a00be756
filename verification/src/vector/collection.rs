//! A vector collection: its file, its log, and which row each node belongs to.
//!
//! Components of vectors are the bits of their values; the caller measures them.
//! The layer of a new node is drawn by the caller from the collection's random
//! numbers.

use crate::error::{owned, BoogyError, Result};
use crate::table;
use crate::vector::hnsw;
use crate::vector::types::{DistanceMetric, VectorCollectionOptions, VectorResult};
use crate::vector::vecfile;
use crate::vector::vecfile::{FileView, VecFile, VecFileHeader, NONE_U32};
use crate::vector::wal;
use crate::vector::wal::{EntryView, VectorWal, WalEntry};
use std::collections::HashMap;
use vstd::prelude::*;

verus! {

/// A vector collection.
pub struct VectorCollection {
    pub vecfile: VecFile,
    pub wal: VectorWal,
    pub rowid_to_node: HashMap<u64, u32>,
    pub node_to_rowid: HashMap<u32, u64>,
    pub rng_state: u64,
}

/// The seed of the random numbers of a collection.
pub const RNG_SEED: u64 = 0x5_DEEC_E66D;

/// A collection as a mathematical value: its file, the nodes of rows and the rows
/// of nodes.
#[verifier::ext_equal]
pub struct CollectionView {
    pub file: FileView,
    pub nodes: Map<u64, u32>,
    pub rows: Map<u32, u64>,
}

impl View for VectorCollection {
    type V = CollectionView;

    open spec fn view(&self) -> CollectionView {
        CollectionView {
            file: self.vecfile@,
            nodes: self.rowid_to_node@,
            rows: self.node_to_rowid@,
        }
    }
}

/// Options that a collection can be created with.
pub open spec fn allowed_options(dimensions: u32, m: u32) -> bool {
    1 <= dimensions <= 4096 && 1 <= m <= 128
}

impl CollectionView {
    /// The file is well formed and its options are allowed.
    pub open spec fn wf(self) -> bool {
        self.file.wf() && allowed_options(self.file.header.dimensions, self.file.header.m)
    }
}

/// What changes with an entry of the log.
pub open spec fn replayed(f: FileView, e: EntryView) -> Option<FileView> {
    let h = f.header;
    match e {
        EntryView::InsertVector { node_id, layer, vector } => match taken(f, node_id) {
            Some(g) => if vector.len() == g.header.dimensions && vecfile::has_room(g, layer) {
                let w = vecfile::with_record(
                    vecfile::with_vector(g, node_id, vector),
                    node_id,
                    layer,
                );
                Some(FileView { deleted: w.deleted.update(node_id as int, 0), ..w })
            } else {
                None
            },
            None => None,
        },
        EntryView::SetNeighbors { node_id, layer, neighbors } => if node_id < h.node_capacity
            && neighbors.len() <= u32::MAX {
            Some(vecfile::with_neighbors(f, node_id, layer, neighbors))
        } else {
            None
        },
        EntryView::DeleteNode { node_id } => if node_id < h.node_capacity && h.free_list_len
            < u32::MAX {
            Some(vecfile::without_node(f, node_id))
        } else {
            None
        },
        EntryView::UpdateHeader { entry_point, node_count, max_layer } => if node_count
            <= h.node_capacity {
            Some(
                FileView {
                    header: VecFileHeader {
                        entry_point: vecfile::option_of(entry_point),
                        node_count,
                        max_layer,
                        ..h
                    },
                    ..f
                },
            )
        } else {
            None
        },
        EntryView::Commit => Some(f),
    }
}

/// A file in which a node is in use: it is taken off the list of free nodes if it is
/// the first of them, else nodes are allocated until it is among them.
pub open spec fn taken(f: FileView, node: u32) -> Option<FileView> {
    if f.header.free_list_head == Some(node) {
        if vecfile::can_allocate(f) {
            Some(vecfile::with_node(f))
        } else {
            None
        }
    } else {
        allocated_until(f, node)
    }
}

/// A file in which enough nodes are allocated for a node to be among them.
pub open spec fn allocated_until(f: FileView, node: u32) -> Option<FileView>
    decreases f.header.free_list_len + node + 1 - f.header.node_count,
{
    if f.header.node_count > node {
        Some(f)
    } else if f.wf() && vecfile::can_allocate(f) {
        allocated_until(vecfile::with_node(f), node)
    } else {
        None
    }
}

/// What changes with the entries of a transaction.
pub open spec fn replayed_all(f: FileView, es: Seq<EntryView>) -> Option<FileView>
    decreases es.len(),
{
    if es.len() == 0 {
        Some(f)
    } else {
        match replayed_all(f, es.drop_last()) {
            Some(g) => replayed(g, es.last()),
            None => None,
        }
    }
}

/// What changes with all transactions of a log.
pub open spec fn replayed_log(f: FileView, txs: Seq<Seq<EntryView>>) -> Option<FileView>
    decreases txs.len(),
{
    if txs.len() == 0 {
        Some(f)
    } else {
        match replayed_log(f, txs.drop_last()) {
            Some(g) => replayed_all(g, txs.last()),
            None => None,
        }
    }
}

fn bad_log<T>() -> (r: Result<T>)
    ensures
        r matches Err(e) && e is Corruption,
{
    Err(BoogyError::Corruption(owned("vector log does not fit the file")))
}

/// Carries out an entry of the log.
fn replay_entry(file: &mut VecFile, entry: &WalEntry) -> (r: Result<()>)
    requires
        old(file)@.wf(),
        allowed_options(old(file)@.header.dimensions, old(file)@.header.m),
    ensures
        final(file)@.wf(),
        final(file)@.header.dimensions == old(file)@.header.dimensions,
        final(file)@.header.m == old(file)@.header.m,
        final(file)@.header.metric == old(file)@.header.metric,
        final(file).key() == old(file).key(),
        r is Ok <==> replayed(old(file)@, entry@) is Some,
        r is Ok ==> replayed(old(file)@, entry@) == Some(final(file)@),
{
    match entry {
        WalEntry::InsertVector { node_id, layer, vector } => {
            let node: u32 = *node_id;
            let first: bool = match file.header().free_list_head {
                Some(head) => head == node,
                None => false,
            };
            if first {
                match file.allocate_node() {
                    Ok(_) => {},
                    Err(e) => {
                        return Err(e);
                    },
                }
            }
            let ghost start = file@;
            while !first && file.header().node_count <= node
                invariant
                    first ==> file@ == start && node < start.header.node_capacity,
                    first ==> taken(old(file)@, node) == Some(start),
                    !first ==> taken(old(file)@, node) == allocated_until(old(file)@, node),
                    file@.wf(),
                    file@.header.dimensions == old(file)@.header.dimensions,
                    file@.header.m == old(file)@.header.m,
                    file@.header.metric == old(file)@.header.metric,
                    file.key() == old(file).key(),
                    !first ==> allocated_until(file@, node) == allocated_until(old(file)@, node),
                    entry@ == (EntryView::InsertVector {
                        node_id: node,
                        layer: *layer,
                        vector: vector@,
                    }),
                decreases file@.header.free_list_len + node + 1 - file@.header.node_count,
            {
                match file.allocate_node() {
                    Ok(_) => {},
                    Err(e) => {
                        return Err(e);
                    },
                }
            }
            if vector.len() != file.header().dimensions as usize {
                return bad_log();
            }
            let ghost g = file@;
            file.write_vector(node, vector.as_slice());
            match file.allocate_graph_record(node, *layer) {
                Ok(_) => {},
                Err(e) => {
                    return Err(e);
                },
            }
            assert(file@.wf()) by {
                record_wf(vecfile::with_vector(g, node, vector@), node, *layer);
            }
            file.set_deleted(node, false);
            Ok(())
        },
        WalEntry::SetNeighbors { node_id, layer, neighbors } => {
            if *node_id >= file.header().node_capacity || neighbors.len() > u32::MAX as usize {
                return bad_log();
            }
            file.write_neighbors(*node_id, *layer, neighbors);
            Ok(())
        },
        WalEntry::DeleteNode { node_id } => {
            if *node_id >= file.header().node_capacity || file.header().free_list_len == u32::MAX {
                return bad_log();
            }
            file.free_node(*node_id);
            Ok(())
        },
        WalEntry::UpdateHeader { entry_point, node_count, max_layer } => {
            if *node_count > file.header().node_capacity {
                return bad_log();
            }
            file.header.entry_point = if *entry_point == NONE_U32 {
                None
            } else {
                Some(*entry_point)
            };
            file.header.node_count = *node_count;
            file.header.max_layer = *max_layer;
            Ok(())
        },
        WalEntry::Commit => Ok(()),
    }
}

/// A record that fits leaves a file well formed.
proof fn record_wf(f: FileView, node: u32, max_layer: u32)
    requires
        f.wf(),
        node < f.header.node_capacity,
        vecfile::has_room(f, max_layer),
    ensures
        vecfile::with_record(f, node, max_layer).wf(),
{
    vecfile::size_fits(f);
}

/// Carries out the entries of a transaction.
fn replay_transaction(file: &mut VecFile, entries: &Vec<WalEntry>) -> (r: Result<()>)
    requires
        old(file)@.wf(),
        allowed_options(old(file)@.header.dimensions, old(file)@.header.m),
    ensures
        final(file)@.wf(),
        final(file)@.header.dimensions == old(file)@.header.dimensions,
        final(file)@.header.m == old(file)@.header.m,
        final(file)@.header.metric == old(file)@.header.metric,
        final(file).key() == old(file).key(),
        r is Ok <==> replayed_all(old(file)@, wal::entries_view(entries@)) is Some,
        r is Ok ==> replayed_all(old(file)@, wal::entries_view(entries@)) == Some(final(file)@),
{
    let ghost es = wal::entries_view(entries@);
    let n: usize = entries.len();
    let mut i: usize = 0;
    assert(es.take(0) =~= Seq::empty());
    while i < n
        invariant
            i <= n,
            n == entries@.len(),
            es == wal::entries_view(entries@),
            file@.wf(),
            allowed_options(file@.header.dimensions, file@.header.m),
            file@.header.dimensions == old(file)@.header.dimensions,
            file@.header.m == old(file)@.header.m,
            file@.header.metric == old(file)@.header.metric,
            file.key() == old(file).key(),
            replayed_all(old(file)@, es.take(i as int)) == Some(file@),
        decreases n - i,
    {
        let ghost before = file@;
        let done = replay_entry(file, &entries[i]);
        proof {
            assert(es.take(i + 1).drop_last() =~= es.take(i as int));
            assert(es.take(i + 1).last() == entries@[i as int]@);
        }
        match done {
            Ok(_) => {},
            Err(e) => {
                proof {
                    replay_stops(old(file)@, es, i + 1);
                }
                return Err(e);
            },
        }
        i += 1;
    }
    assert(es.take(n as int) =~= es);
    Ok(())
}

/// What cannot be replayed in part cannot be replayed as a whole.
proof fn replay_stops(f: FileView, es: Seq<EntryView>, k: int)
    requires
        0 <= k <= es.len(),
        replayed_all(f, es.take(k)) is None,
    ensures
        replayed_all(f, es) is None,
    decreases es.len(),
{
    if k == es.len() {
        assert(es.take(k) =~= es);
    } else {
        assert(es.drop_last().take(k) =~= es.take(k));
        replay_stops(f, es.drop_last(), k);
    }
}

/// What cannot be replayed in part cannot be replayed as a whole.
proof fn replay_log_stops(f: FileView, txs: Seq<Seq<EntryView>>, k: int)
    requires
        0 <= k <= txs.len(),
        replayed_log(f, txs.take(k)) is None,
    ensures
        replayed_log(f, txs) is None,
    decreases txs.len(),
{
    if k == txs.len() {
        assert(txs.take(k) =~= txs);
    } else {
        assert(txs.drop_last().take(k) =~= txs.take(k));
        replay_log_stops(f, txs.drop_last(), k);
    }
}

/// Carries out the transactions of a log.
fn replay_log(file: &mut VecFile, txs: &Vec<Vec<WalEntry>>) -> (r: Result<()>)
    requires
        old(file)@.wf(),
        allowed_options(old(file)@.header.dimensions, old(file)@.header.m),
    ensures
        final(file)@.wf(),
        final(file)@.header.dimensions == old(file)@.header.dimensions,
        final(file)@.header.m == old(file)@.header.m,
        final(file).key() == old(file).key(),
        r is Ok <==> replayed_log(old(file)@, wal::txs_view(txs@)) is Some,
        r is Ok ==> replayed_log(old(file)@, wal::txs_view(txs@)) == Some(final(file)@),
{
    let ghost all = wal::txs_view(txs@);
    let n: usize = txs.len();
    let mut i: usize = 0;
    assert(all.take(0) =~= Seq::empty());
    while i < n
        invariant
            i <= n,
            n == txs@.len(),
            all == wal::txs_view(txs@),
            file@.wf(),
            allowed_options(file@.header.dimensions, file@.header.m),
            file@.header.dimensions == old(file)@.header.dimensions,
            file@.header.m == old(file)@.header.m,
            file.key() == old(file).key(),
            replayed_log(old(file)@, all.take(i as int)) == Some(file@),
        decreases n - i,
    {
        let done = replay_transaction(file, &txs[i]);
        proof {
            assert(all.take(i + 1).drop_last() =~= all.take(i as int));
            assert(all.take(i + 1).last() == wal::entries_view(txs@[i as int]@));
        }
        match done {
            Ok(_) => {},
            Err(e) => {
                proof {
                    replay_log_stops(old(file)@, all, i + 1);
                }
                return Err(e);
            },
        }
        i += 1;
    }
    assert(all.take(n as int) =~= all);
    Ok(())
}

/// The transactions that a log holds.
pub open spec fn transactions(log: Seq<u8>, key: Option<Seq<u8>>) -> Option<Seq<Seq<EntryView>>> {
    wal::committed_from(log, key, 0, Seq::empty(), Seq::empty())
}

/// The file of a collection after its log was replayed.
pub open spec fn recovered(raw: Seq<u8>, log: Seq<u8>, key: Option<Seq<u8>>, g: FileView) -> bool {
    exists|f: FileView| #[trigger]
        vecfile::reads_as(vecfile::plain_bytes(raw, key)->0, f) && f.wf()
            && vecfile::header_storable(f.header) && if log.len() == 0 {
            g == f
        } else {
            transactions(log, key) matches Some(txs) && replayed_log(f, txs) == Some(g)
        }
}

/// The next of the random numbers.
pub open spec fn xorshift(x: u64) -> u64 {
    let a = x ^ (x << 13u64);
    let b = a ^ (a >> 7u64);
    b ^ (b << 17u64)
}

/// The pairs of a list, each replacing what was there before under its row.
pub open spec fn nodes_of(pairs: Seq<(u64, u32)>) -> Map<u64, u32>
    decreases pairs.len(),
{
    if pairs.len() == 0 {
        Map::empty()
    } else {
        nodes_of(pairs.drop_last()).insert(pairs.last().0, pairs.last().1)
    }
}

/// The pairs of a list, each replacing what was there before under its node.
pub open spec fn rows_of(pairs: Seq<(u64, u32)>) -> Map<u32, u64>
    decreases pairs.len(),
{
    if pairs.len() == 0 {
        Map::empty()
    } else {
        rows_of(pairs.drop_last()).insert(pairs.last().1, pairs.last().0)
    }
}

impl VectorCollection {
    /// The collection is well formed, and its file and its log have the same key.
    pub open spec fn inv(&self) -> bool {
        self@.wf() && self.vecfile.key() == table::key_view(self.wal.cipher)
    }

    /// Create a new vector collection.
    pub fn create(options: &VectorCollectionOptions, key: Option<&[u8; 32]>) -> (r: Result<
        VectorCollection,
    >)
        ensures
            r is Ok <==> allowed_options(options.dimensions, options.m),
            r matches Ok(c) ==> {
                &&& c@ == (CollectionView {
                    file: vecfile::blank_file(
                        options.dimensions,
                        options.metric,
                        options.m,
                        options.ef_construction,
                        1024,
                    ),
                    nodes: Map::empty(),
                    rows: Map::empty(),
                })
                &&& c.inv()
                &&& c.vecfile.key() == vecfile::crypto_key(key)
                &&& c.wal.log@.len() == 0
                &&& c.rng_state == RNG_SEED
            },
            r matches Err(e) ==> e is VectorError,
    {
        broadcast use vstd::std_specs::hash::group_hash_axioms;

        if options.dimensions == 0 || options.dimensions > 4096 {
            return Err(BoogyError::VectorError(owned("dimensions must be 1..4096")));
        }
        if options.m == 0 || options.m > 128 {
            return Err(BoogyError::VectorError(owned("m must be 1..128")));
        }
        let d: u32 = options.dimensions;
        let m: u32 = options.m;
        assert(vecfile::file_size(1024, d, m) <= 0x400_0000) by {
            assert(vecfile::words_per_node(m) * 1024 <= 0x30_0000);
        }
        let vecfile = VecFile::create(
            d,
            options.metric,
            m,
            options.ef_construction,
            1024,
            key,
        )?;
        proof {
            vecfile::blank_sound(d, options.metric, m, options.ef_construction, 1024);
        }
        let wal = VectorWal::open(Vec::new(), key);
        Ok(
            VectorCollection {
                vecfile,
                wal,
                rowid_to_node: HashMap::new(),
                node_to_rowid: HashMap::new(),
                rng_state: RNG_SEED,
            },
        )
    }

    /// Open an existing vector collection from the bytes of its file and its log:
    /// the committed transactions of the log are replayed, and the log is cleared.
    pub fn open(raw: &[u8], log: Vec<u8>, key: Option<&[u8; 32]>) -> (r: Result<VectorCollection>)
        ensures
            r matches Ok(c) ==> {
                &&& recovered(raw@, log@, vecfile::crypto_key(key), c@.file)
                &&& c.inv()
                &&& c.vecfile.key() == vecfile::crypto_key(key)
                &&& c.wal.log@.len() == 0
                &&& c@.nodes == Map::<u64, u32>::empty()
                &&& c@.rows == Map::<u32, u64>::empty()
                &&& c.rng_state == RNG_SEED
            },
            r is Err ==> !openable(raw@, log@, vecfile::crypto_key(key)),
    {
        broadcast use vstd::std_specs::hash::group_hash_axioms;

        let mut vecfile = VecFile::open(raw, key)?;
        let ghost f = vecfile@;
        let h = *vecfile.header();
        if h.dimensions == 0 || h.dimensions > 4096 || h.m == 0 || h.m > 128 {
            return Err(BoogyError::Corruption(owned("vec file: bad options")));
        }
        let ghost bytes = log@;
        let ghost k = vecfile::crypto_key(key);
        let mut wal = VectorWal::open(log, key);
        if !wal.is_empty() {
            let txs = wal.read_committed()?;
            match replay_log(&mut vecfile, &txs) {
                Ok(_) => {},
                Err(e) => {
                    return Err(e);
                },
            }
            wal.truncate();
        }
        assert(recovered(raw@, bytes, k, vecfile@)) by {
            assert(vecfile::reads_as(vecfile::plain_bytes(raw@, k)->0, f));
        }
        Ok(
            VectorCollection {
                vecfile,
                wal,
                rowid_to_node: HashMap::new(),
                node_to_rowid: HashMap::new(),
                rng_state: RNG_SEED,
            },
        )
    }
}

/// The bytes of a file and of a log can be opened as a collection: the file is
/// valid, and the committed transactions of the log can be replayed on it.
pub open spec fn openable(raw: Seq<u8>, log: Seq<u8>, key: Option<Seq<u8>>) -> bool {
    &&& vecfile::plain_bytes(raw, key) matches Some(b) && vecfile::valid_image(b)
    &&& forall|f: FileView| #[trigger]
        vecfile::reads_as(vecfile::plain_bytes(raw, key)->0, f) && f.wf()
            && vecfile::header_storable(f.header) ==> {
            &&& allowed_options(f.header.dimensions, f.header.m)
            &&& log.len() == 0 || (transactions(log, key) matches Some(txs) && replayed_log(f, txs)
                is Some)
        }
}

/// The distances that may be found between two vectors.
pub type Measure = spec_fn(Seq<u32>, Seq<u32>, i64) -> bool;

/// What a function that measures may return.
pub open spec fn measures<F: Fn(&[u32], &[u32]) -> i64>(f: F) -> Measure {
    |a: Seq<u32>, b: Seq<u32>, d: i64|
        exists|x: &[u32], y: &[u32]| #[trigger] call_ensures(f, (x, y), d) && x@ == a && y@ == b
}

/// The distances of nodes from a vector. A node beyond the file is farthest.
pub open spec fn from_vector(g: Measure, f: FileView, query: Seq<u32>) -> hnsw::Near {
    |v: u32, d: i64|
        if v < f.header.node_capacity {
            g(query, f.vector_of(v), d)
        } else {
            d == i64::MAX
        }
}

/// The distances between nodes. A node beyond the file is farthest.
pub open spec fn among(g: Measure, f: FileView) -> hnsw::Gaps {
    |v: u32, w: u32, d: i64|
        if v < f.header.node_capacity && w < f.header.node_capacity {
            g(f.vector_of(v), f.vector_of(w), d)
        } else {
            d == i64::MAX
        }
}

/// The neighbors of nodes. A node beyond the file has none.
pub open spec fn linked_in(f: FileView) -> hnsw::Lists {
    |v: u32, l: u32, s: Seq<u32>|
        s == if v < f.header.node_capacity {
            f.neighbors_of(v, l)
        } else {
            Seq::empty()
        }
}

/// Whether nodes are deleted. A node beyond the file is.
pub open spec fn gone_in(f: FileView) -> hnsw::Flags {
    |v: u32, b: bool| b == (v >= f.header.node_capacity || f.is_gone(v))
}

/// A file with the neighbor lists of some nodes replaced.
pub open spec fn connected(f: FileView, connections: Seq<(u32, u32, Vec<u32>)>) -> FileView
    decreases connections.len(),
{
    if connections.len() == 0 {
        f
    } else {
        let c = connections.last();
        let g = connected(f, connections.drop_last());
        if c.0 < g.header.node_capacity && c.2@.len() <= u32::MAX {
            vecfile::with_neighbors(g, c.0, c.1, c.2@)
        } else {
            g
        }
    }
}

/// The node that an insert takes.
pub open spec fn next_node(f: FileView) -> u32 {
    match f.header.free_list_head {
        Some(head) => head,
        None => f.header.node_count,
    }
}

/// A file with a new node that is not connected.
pub open spec fn with_new_node(f: FileView, vector: Seq<u32>, layer: u32) -> FileView {
    let node = next_node(f);
    vecfile::with_record(
        vecfile::with_vector(vecfile::with_node(f), node, vector),
        node,
        layer,
    )
}

/// The connections that a new node gets.
pub open spec fn planned(
    g: Measure,
    f: FileView,
    node: u32,
    layer: u32,
    connections: Seq<(u32, u32, Vec<u32>)>,
) -> bool {
    let h = f.header;
    match h.entry_point {
        None => hnsw::unlinked(node, layer, connections),
        Some(ep) => exists|start: u32, last: u32| #[trigger]
            hnsw::inserted_from(
                from_vector(g, f, f.vector_of(node)),
                among(g, f),
                linked_in(f),
                gone_in(f),
                node,
                layer,
                ep,
                h.max_layer,
                h.m,
                h.ef_construction,
                start,
                last,
                connections,
            ),
    }
}

/// The entry point after an insert: the new node if it is the first, or reaches
/// higher than all others.
pub open spec fn entry_after(h: VecFileHeader, node: u32, layer: u32) -> u32 {
    match h.entry_point {
        None => node,
        Some(ep) => if layer > h.max_layer {
            node
        } else {
            ep
        },
    }
}

/// The highest layer after an insert.
pub open spec fn top_after(h: VecFileHeader, layer: u32) -> u32 {
    if h.entry_point is None || layer > h.max_layer {
        layer
    } else {
        h.max_layer
    }
}

/// A file after an insert with given connections.
pub open spec fn with_inserted(
    f: FileView,
    vector: Seq<u32>,
    layer: u32,
    connections: Seq<(u32, u32, Vec<u32>)>,
) -> FileView {
    let g = connected(with_new_node(f, vector, layer), connections);
    FileView {
        header: VecFileHeader {
            entry_point: Some(entry_after(f.header, next_node(f), layer)),
            max_layer: top_after(f.header, layer),
            ..g.header
        },
        ..g
    }
}

/// The lists of connections as entries of the log.
pub open spec fn link_entries(connections: Seq<(u32, u32, Vec<u32>)>) -> Seq<EntryView> {
    connections.map_values(
        |c: (u32, u32, Vec<u32>)|
            EntryView::SetNeighbors { node_id: c.0, layer: c.1, neighbors: c.2@ },
    )
}

/// The entries of the log for an insert.
pub open spec fn insert_entries(
    f: FileView,
    vector: Seq<u32>,
    layer: u32,
    connections: Seq<(u32, u32, Vec<u32>)>,
) -> Seq<EntryView> {
    seq![EntryView::InsertVector { node_id: next_node(f), layer, vector }] + link_entries(
        connections,
    ) + seq![
        EntryView::UpdateHeader {
            entry_point: entry_after(f.header, next_node(f), layer),
            node_count: vecfile::with_node(f).header.node_count,
            max_layer: top_after(f.header, layer),
        },
    ]
}

/// A vector was inserted for a row: the file, the mappings and the log after.
pub open spec fn inserted(
    g: Measure,
    a: CollectionView,
    log_a: Seq<u8>,
    b: CollectionView,
    log_b: Seq<u8>,
    key: Option<Seq<u8>>,
    rowid: u64,
    vector: Seq<u32>,
    layer: u32,
    node: u32,
) -> bool {
    &&& node == next_node(a.file)
    &&& exists|connections: Seq<(u32, u32, Vec<u32>)>|
        {
            &&& #[trigger] planned(
                g,
                with_new_node(a.file, vector, layer),
                node,
                layer,
                connections,
            )
            &&& b == (CollectionView {
                file: with_inserted(a.file, vector, layer, connections),
                nodes: a.nodes.insert(rowid, node),
                rows: a.rows.insert(node, rowid),
            })
            &&& wal::appended_all(
                log_a,
                log_b,
                key,
                insert_entries(a.file, vector, layer, connections).push(EntryView::Commit),
            )
        }
}

/// What comes of an insert into a collection.
pub open spec fn insert_outcome(
    g: Measure,
    a: VectorCollection,
    b: VectorCollection,
    rowid: u64,
    vector: Seq<u32>,
    layer: u32,
    r: Result<u32>,
) -> bool {
    &&& r is Ok <==> vector.len() == a@.file.header.dimensions && !a@.nodes.contains_key(rowid)
        && insertable(a@.file, layer)
    &&& r matches Ok(node) ==> inserted(
        g,
        a@,
        a.wal.log@,
        b@,
        b.wal.log@,
        a.vecfile.key(),
        rowid,
        vector,
        layer,
        node,
    )
    &&& r is Err ==> b.wal.log@ == a.wal.log@ && b@.nodes == a@.nodes && b@.rows == a@.rows
    &&& vector.len() != a@.file.header.dimensions ==> r == Err::<u32, BoogyError>(
        BoogyError::VectorDimensionMismatch {
            expected: a@.file.header.dimensions,
            got: vector.len() as u32,
        },
    ) && b@ == a@
    &&& vector.len() == a@.file.header.dimensions && a@.nodes.contains_key(rowid) ==> (
    r matches Err(e) && e is VectorError) && b@ == a@
}

/// What comes of a delete from a collection.
pub open spec fn delete_outcome(
    a: VectorCollection,
    b: VectorCollection,
    rowid: u64,
    r: Result<()>,
) -> bool {
    &&& r is Ok <==> deletable(a@, rowid)
    &&& r is Ok ==> b@ == without_row(a@, rowid) && wal::appended_all(
        a.wal.log@,
        b.wal.log@,
        a.vecfile.key(),
        delete_entries(a@.file, a@.nodes[rowid]).push(EntryView::Commit),
    )
    &&& r matches Err(e) ==> {
        &&& if a@.nodes.contains_key(rowid) {
            e is Corruption
        } else {
            e is VectorError
        }
        &&& b@ == a@
        &&& b.wal.log@ == a.wal.log@
    }
}

/// What comes of an update in a collection: a delete, then an insert.
pub open spec fn update_outcome(
    g: Measure,
    a: VectorCollection,
    b: VectorCollection,
    rowid: u64,
    vector: Seq<u32>,
    layer: u32,
    r: Result<u32>,
) -> bool {
    if deletable(a@, rowid) {
        exists|mid: VectorCollection| #[trigger]
            delete_outcome(a, mid, rowid, Ok(())) && mid.vecfile.key() == a.vecfile.key()
                && insert_outcome(g, mid, b, rowid, vector, layer, r)
    } else {
        r is Err && b@ == a@ && b.wal.log@ == a.wal.log@
    }
}

/// The file has room for another node with its record.
pub open spec fn insertable(f: FileView, layer: u32) -> bool {
    vecfile::can_allocate(f) && vecfile::has_room(vecfile::with_node(f), layer)
}

/// The lists of an insert are short enough for the log.
proof fn lists_fit(
    dist: hnsw::Near,
    between: hnsw::Gaps,
    read_neighbors: hnsw::Lists,
    is_deleted: hnsw::Flags,
    node: u32,
    m: u32,
    ef: int,
    top: int,
    bottom: int,
    ep: u32,
    next: u32,
    connections: Seq<(u32, u32, Vec<u32>)>,
)
    requires
        hnsw::linked(
            dist,
            between,
            read_neighbors,
            is_deleted,
            node,
            m,
            ef,
            top,
            bottom,
            ep,
            next,
            connections,
        ),
        0 <= m,
    ensures
        forall|i: int|
            0 <= i < connections.len() ==> (#[trigger] connections[i]).2@.len() <= 2 * m && (
            connections[i].0 == node || is_deleted(connections[i].0, false)),
    decreases top - bottom,
{
    if top > bottom {
        let (cut, mid) = choose|cut: int, mid: u32|
            0 <= cut <= connections.len() && hnsw::linked(
                dist,
                between,
                read_neighbors,
                is_deleted,
                node,
                m,
                ef,
                top,
                bottom + 1,
                ep,
                mid,
                connections.take(cut),
            ) && #[trigger] hnsw::layer_linked(
                dist,
                between,
                read_neighbors,
                is_deleted,
                node,
                m,
                ef,
                bottom as u32,
                mid,
                next,
                connections.skip(cut),
            );
        lists_fit(
            dist,
            between,
            read_neighbors,
            is_deleted,
            node,
            m,
            ef,
            top,
            bottom + 1,
            ep,
            mid,
            connections.take(cut),
        );
        let block = connections.skip(cut);
        let layer = bottom as u32;
        let found = choose|found: Seq<hnsw::Scored>| #[trigger]
            hnsw::layer_found(
                dist,
                read_neighbors,
                is_deleted,
                hnsw::anyone(),
                seq![mid],
                ef,
                layer,
                found,
            ) && hnsw::layer_linked_as(
                between,
                read_neighbors,
                is_deleted,
                node,
                m,
                layer,
                mid,
                next,
                block,
                found,
            );
        let chosen = hnsw::first_ids(hnsw::ranked(found), m as int);
        assert(chosen.len() <= m);
        hnsw::ranking_orders(found);
        assert forall|i: int| 0 <= i < connections.len() implies (
        #[trigger] connections[i]).2@.len() <= 2 * m && (connections[i].0 == node || is_deleted(
            connections[i].0,
            false,
        )) by {
            if i < cut {
                assert(connections.take(cut)[i] == connections[i]);
            } else if i == cut {
                assert(block[0] == connections[i]);
            } else {
                let c = chosen[i - cut - 1];
                let x = hnsw::ranked(found)[i - cut - 1];
                assert(c == x.0);
                assert(hnsw::ranked(found).contains(x));
                let k = choose|k: int| 0 <= k < found.len() && found[k] == x;
                assert(found[k] == x);
                assert(block[i - cut] == connections[i]);
                assert(hnsw::back_linked(
                    between,
                    read_neighbors,
                    is_deleted,
                    node,
                    m,
                    layer,
                    c,
                    block[i - cut - 1 + 1],
                ));
            }
        }
    }
}

/// The lists of planned connections are short, and belong to nodes of the file.
pub proof fn plan_short(
    g: Measure,
    f: FileView,
    node: u32,
    layer: u32,
    connections: Seq<(u32, u32, Vec<u32>)>,
)
    requires
        planned(g, f, node, layer, connections),
        node < f.header.node_capacity,
    ensures
        forall|i: int|
            0 <= i < connections.len() ==> (#[trigger] connections[i]).2@.len() <= 2 * f.header.m
                && connections[i].0 < f.header.node_capacity,
{
    let h = f.header;
    if let Some(ep) = h.entry_point {
        let (start, last) = choose|start: u32, last: u32| #[trigger]
            hnsw::inserted_from(
                from_vector(g, f, f.vector_of(node)),
                among(g, f),
                linked_in(f),
                gone_in(f),
                node,
                layer,
                ep,
                h.max_layer,
                h.m,
                h.ef_construction,
                start,
                last,
                connections,
            );
        lists_fit(
            from_vector(g, f, f.vector_of(node)),
            among(g, f),
            linked_in(f),
            gone_in(f),
            node,
            h.m,
            h.ef_construction as int,
            hnsw::layers_shared(layer, h.max_layer),
            0,
            start,
            last,
            connections,
        );
    }
}

/// What may be returned when a node is measured from a vector.
spec fn near_answer<F: Fn(&[u32], &[u32]) -> i64>(
    file: &VecFile,
    distance: &F,
    query: &[u32],
    v: u32,
    d: i64,
) -> bool {
    from_vector(measures(*distance), file@, query@)(v, d)
}

/// What may be returned when a node is measured from another.
spec fn gap_answer<F: Fn(&[u32], &[u32]) -> i64>(
    file: &VecFile,
    distance: &F,
    v: u32,
    w: u32,
    d: i64,
) -> bool {
    among(measures(*distance), file@)(v, w, d)
}

/// Works out the connections of a new node.
fn plan<F: Fn(&[u32], &[u32]) -> i64>(
    file: &VecFile,
    node: u32,
    layer: u32,
    distance: &F,
) -> (r: hnsw::InsertResult)
    requires
        file@.wf(),
        file@.header.m <= 128,
        node < file@.header.node_capacity,
        layer < u32::MAX,
        forall|a: &[u32], b: &[u32]| call_requires(distance, (a, b)),
    ensures
        planned(measures(*distance), file@, node, layer, r.connections@),
        file@.header.entry_point is None ==> r.new_entry_point == Some(node) && r.new_max_layer
            == Some(layer),
        file@.header.entry_point is Some ==> r.new_entry_point == (if layer
            > file@.header.max_layer {
            Some(node)
        } else {
            None
        }) && r.new_max_layer == (if layer > file@.header.max_layer {
            Some(layer)
        } else {
            None
        }),
{
    let ghost f = file@;
    let ghost g = measures(*distance);
    let h = *file.header();
    let cap: u32 = h.node_capacity;
    let query = file.read_vector(node);
    let dist = |v: u32| -> (d: i64)
        ensures
            near_answer(file, distance, query, v, d),
        {
            if v < cap {
                let w = file.read_vector(v);
                let d: i64 = distance(query, w);
                d
            } else {
                i64::MAX
            }
        };
    let between = |v: u32, w: u32| -> (d: i64)
        ensures
            gap_answer(file, distance, v, w, d),
        {
            if v < cap && w < cap {
                let a = file.read_vector(v);
                let b = file.read_vector(w);
                let d: i64 = distance(a, b);
                d
            } else {
                i64::MAX
            }
        };
    let read = |v: u32, l: u32| -> (r: Vec<u32>)
        ensures
            linked_in(file@)(v, l, r@),
        {
            if v < cap {
                file.read_neighbors(v, l)
            } else {
                let none: Vec<u32> = Vec::new();
                assert(none@ =~= Seq::empty());
                none
            }
        };
    let gone = |v: u32| -> (b: bool)
        ensures
            gone_in(file@)(v, b),
        {
            v >= cap || file.is_deleted(v)
        };
    let r = hnsw::insert(
        node,
        layer,
        h.entry_point,
        h.max_layer,
        h.m,
        h.ef_construction,
        &dist,
        &between,
        &read,
        &gone,
    );
    proof {
        if let Some(ep) = h.entry_point {
            let (start, last) = choose|start: u32, last: u32| #[trigger]
                hnsw::inserted_from(
                    hnsw::near(dist),
                    hnsw::gaps(between),
                    hnsw::lists(read),
                    hnsw::flags(gone),
                    node,
                    layer,
                    ep,
                    h.max_layer,
                    h.m,
                    h.ef_construction,
                    start,
                    last,
                    r.connections@,
                );
            hnsw::inserted_from_within(
                hnsw::near(dist),
                from_vector(g, f, f.vector_of(node)),
                hnsw::gaps(between),
                among(g, f),
                hnsw::lists(read),
                linked_in(f),
                hnsw::flags(gone),
                gone_in(f),
                node,
                layer,
                ep,
                h.max_layer,
                h.m,
                h.ef_construction,
                start,
                last,
                r.connections@,
            );
        }
    }
    r
}

/// The first node of a list that is not deleted.
pub open spec fn first_open(f: FileView, list: Seq<u32>) -> Option<u32>
    decreases list.len(),
{
    if list.len() == 0 {
        None
    } else if list[0] < f.header.node_capacity && !f.is_gone(list[0]) {
        Some(list[0])
    } else {
        first_open(f, list.skip(1))
    }
}

fn find_open(file: &VecFile, list: &Vec<u32>) -> (r: Option<u32>)
    requires
        file@.wf(),
    ensures
        r == first_open(file@, list@),
{
    let mut i: usize = 0;
    let n: usize = list.len();
    assert(list@.skip(0) =~= list@);
    while i < n
        invariant
            i <= n,
            n == list@.len(),
            file@.wf(),
            first_open(file@, list@) == first_open(file@, list@.skip(i as int)),
        decreases n - i,
    {
        let v: u32 = list[i];
        assert(list@.skip(i as int)[0] == v);
        assert(list@.skip(i as int).skip(1) =~= list@.skip(i + 1));
        if v < file.header().node_capacity && !file.is_deleted(v) {
            return Some(v);
        }
        i += 1;
    }
    None
}

/// The entry point after a node is deleted: if it was the node, its first neighbor
/// that is not deleted.
pub open spec fn entry_without(f: FileView, node: u32) -> Option<u32> {
    if f.header.entry_point == Some(node) {
        first_open(f, f.neighbors_of(node, 0))
    } else {
        f.header.entry_point
    }
}

/// A file after a node is deleted.
pub open spec fn with_deleted(f: FileView, node: u32) -> FileView {
    let g = vecfile::without_node(f, node);
    FileView { header: VecFileHeader { entry_point: entry_without(f, node), ..g.header }, ..g }
}

/// The entries of the log for a delete.
pub open spec fn delete_entries(f: FileView, node: u32) -> Seq<EntryView> {
    seq![
        EntryView::DeleteNode { node_id: node },
        EntryView::UpdateHeader {
            entry_point: vecfile::stored(entry_without(f, node)),
            node_count: f.header.node_count,
            max_layer: f.header.max_layer,
        },
    ]
}

/// The vector of a row can be deleted.
pub open spec fn deletable(a: CollectionView, rowid: u64) -> bool {
    &&& a.nodes.contains_key(rowid)
    &&& a.nodes[rowid] < a.file.header.node_capacity
    &&& a.file.header.free_list_len < u32::MAX
}

/// A collection without the vector of a row.
pub open spec fn without_row(a: CollectionView, rowid: u64) -> CollectionView {
    let node = a.nodes[rowid];
    CollectionView {
        file: with_deleted(a.file, node),
        nodes: a.nodes.remove(rowid),
        rows: a.rows.remove(node),
    }
}

/// What may be found of nodes when rows are refused by a function: a node of no
/// row is refused.
pub open spec fn rows_allowed<A: Fn(u64) -> bool>(
    rows: Map<u32, u64>,
    allows: Option<&A>,
) -> hnsw::Flags {
    |v: u32, b: bool|
        match allows {
            None => b,
            Some(f) => if rows.contains_key(v) {
                call_ensures(f, (rows[v],), b)
            } else {
                !b
            },
        }
}

/// The rows of nodes that were found; nodes of no row are left out.
pub open spec fn results_of(rows: Map<u32, u64>, found: Seq<hnsw::Scored>) -> Seq<VectorResult>
    decreases found.len(),
{
    if found.len() == 0 {
        Seq::empty()
    } else {
        let rest = results_of(rows, found.drop_last());
        let x = found.last();
        if rows.contains_key(x.0) {
            rest.push(VectorResult { rowid: rows[x.0], distance: x.1 })
        } else {
            rest
        }
    }
}

/// What a search of a collection returns.
pub open spec fn searched(
    g: Measure,
    a: CollectionView,
    allowed: hnsw::Flags,
    query: Seq<u32>,
    k: u32,
    ef_search: u32,
    r: Seq<VectorResult>,
) -> bool {
    match a.file.header.entry_point {
        None => r.len() == 0,
        Some(ep) => exists|found: Seq<hnsw::Scored>| #[trigger]
            hnsw::nearest_found(
                from_vector(g, a.file, query),
                linked_in(a.file),
                gone_in(a.file),
                allowed,
                k,
                ef_search,
                ep,
                a.file.header.max_layer,
                found,
            ) && r == results_of(a.rows, found),
    }
}

/// What a search returns depends on no more than what is found of the rows.
pub proof fn searched_within(
    g: Measure,
    a: CollectionView,
    allowed: hnsw::Flags,
    allowed2: hnsw::Flags,
    query: Seq<u32>,
    k: u32,
    ef_search: u32,
    r: Seq<VectorResult>,
)
    requires
        searched(g, a, allowed, query, k, ef_search, r),
        hnsw::flags_within(allowed, allowed2),
    ensures
        searched(g, a, allowed2, query, k, ef_search, r),
{
    if let Some(ep) = a.file.header.entry_point {
        let found = choose|found: Seq<hnsw::Scored>| #[trigger]
            hnsw::nearest_found(
                from_vector(g, a.file, query),
                linked_in(a.file),
                gone_in(a.file),
                allowed,
                k,
                ef_search,
                ep,
                a.file.header.max_layer,
                found,
            ) && r == results_of(a.rows, found);
        hnsw::nearest_found_within(
            from_vector(g, a.file, query),
            from_vector(g, a.file, query),
            linked_in(a.file),
            linked_in(a.file),
            gone_in(a.file),
            gone_in(a.file),
            allowed,
            allowed2,
            k,
            ef_search,
            ep,
            a.file.header.max_layer,
            found,
        );
    }
}

/// What may be returned when a node is asked for.
spec fn allow_answer<A: Fn(u64) -> bool>(
    rows: &HashMap<u32, u64>,
    allows: Option<&A>,
    v: u32,
    b: bool,
) -> bool {
    rows_allowed(rows@, allows)(v, b)
}

impl VectorCollection {
    /// Fill in which row each node belongs to.
    pub fn rebuild_mappings(&mut self, mappings: &Vec<(u64, u32)>)
        ensures
            final(self)@.file == old(self)@.file,
            final(self)@.nodes == nodes_of(mappings@),
            final(self)@.rows == rows_of(mappings@),
            final(self).wal == old(self).wal,
            final(self).vecfile == old(self).vecfile,
            final(self).rng_state == old(self).rng_state,
    {
        broadcast use vstd::std_specs::hash::group_hash_axioms;

        let mut nodes: HashMap<u64, u32> = HashMap::new();
        let mut rows: HashMap<u32, u64> = HashMap::new();
        let n: usize = mappings.len();
        let mut i: usize = 0;
        assert(mappings@.take(0) =~= Seq::empty());
        while i < n
            invariant
                i <= n,
                n == mappings@.len(),
                nodes@ == nodes_of(mappings@.take(i as int)),
                rows@ == rows_of(mappings@.take(i as int)),
            decreases n - i,
        {
            let p: (u64, u32) = mappings[i];
            proof {
                assert(mappings@.take(i + 1).drop_last() =~= mappings@.take(i as int));
                assert(mappings@.take(i + 1).last() == p);
            }
            nodes.insert(p.0, p.1);
            rows.insert(p.1, p.0);
            i += 1;
        }
        assert(mappings@.take(n as int) =~= mappings@);
        self.rowid_to_node = nodes;
        self.node_to_rowid = rows;
    }

    /// Insert a vector that belongs to a row, at layers up to `layer`. The log gets
    /// a committed transaction that does the same.
    pub fn insert<F: Fn(&[u32], &[u32]) -> i64>(
        &mut self,
        rowid: u64,
        vector: &[u32],
        layer: u32,
        distance: &F,
    ) -> (r: Result<u32>)
        requires
            old(self).inv(),
            layer < u32::MAX,
            forall|a: &[u32], b: &[u32]| call_requires(distance, (a, b)),
        ensures
            final(self).inv(),
            final(self).vecfile.key() == old(self).vecfile.key(),
            final(self).rng_state == old(self).rng_state,
            insert_outcome(
                measures(*distance),
                *old(self),
                *final(self),
                rowid,
                vector@,
                layer,
                r,
            ),
    {
        broadcast use vstd::std_specs::hash::group_hash_axioms;

        let dims: u32 = self.vecfile.header().dimensions;
        if vector.len() != dims as usize {
            return Err(
                BoogyError::VectorDimensionMismatch { expected: dims, got: vector.len() as u32 },
            );
        }
        if self.rowid_to_node.contains_key(&rowid) {
            return Err(BoogyError::VectorError(owned("duplicate rowid")));
        }
        let ghost f = self.vecfile@;
        let node: u32 = self.vecfile.allocate_node()?;
        let ghost f0 = self.vecfile@;
        self.vecfile.write_vector(node, vector);
        let ghost f1 = self.vecfile@;
        match self.vecfile.allocate_graph_record(node, layer) {
            Ok(_) => {},
            Err(e) => {
                if self.vecfile.header().free_list_len < u32::MAX {
                    self.vecfile.free_node(node);
                }
                return Err(e);
            },
        }
        proof {
            record_wf(f1, node, layer);
        }
        let ghost f2 = self.vecfile@;
        let planned_links = plan(&self.vecfile, node, layer, distance);
        let h = *self.vecfile.header();
        let new_ep: u32 = match planned_links.new_entry_point {
            Some(ep) => ep,
            None => match h.entry_point {
                Some(ep) => ep,
                None => node,
            },
        };
        let new_max: u32 = match planned_links.new_max_layer {
            Some(l) => l,
            None => h.max_layer,
        };
        let connections = planned_links.connections;
        proof {
            plan_short(measures(*distance), f2, node, layer, connections@);
        }
        let mut entries: Vec<WalEntry> = Vec::new();
        let mut copy: Vec<u32> = Vec::new();
        copy.extend_from_slice(vector);
        assert(copy@ =~= vector@);
        entries.push(WalEntry::InsertVector { node_id: node, layer, vector: copy });
        let n: usize = connections.len();
        let mut i: usize = 0;
        let ghost first = EntryView::InsertVector { node_id: node, layer, vector: vector@ };
        assert(wal::entries_view(entries@) =~= seq![first] + link_entries(connections@.take(0)));
        while i < n
            invariant
                i <= n,
                n == connections@.len(),
                wal::entries_view(entries@) == seq![first] + link_entries(
                    connections@.take(i as int),
                ),
            decreases n - i,
        {
            let ghost before = entries@;
            let mut list: Vec<u32> = Vec::new();
            list.extend_from_slice(connections[i].2.as_slice());
            assert(list@ =~= connections@[i as int].2@);
            entries.push(
                WalEntry::SetNeighbors {
                    node_id: connections[i].0,
                    layer: connections[i].1,
                    neighbors: list,
                },
            );
            proof {
                let c = connections@[i as int];
                let e = EntryView::SetNeighbors { node_id: c.0, layer: c.1, neighbors: c.2@ };
                assert(entries@.last()@ == e);
                assert(wal::entries_view(entries@) =~= wal::entries_view(before).push(e));
                assert(link_entries(connections@.take(i + 1)) =~= link_entries(
                    connections@.take(i as int),
                ).push(e));
                assert(wal::entries_view(entries@) =~= seq![first] + link_entries(
                    connections@.take(i + 1),
                ));
            }
            i += 1;
        }
        assert(connections@.take(n as int) =~= connections@);
        entries.push(
            WalEntry::UpdateHeader {
                entry_point: new_ep,
                node_count: h.node_count,
                max_layer: new_max,
            },
        );
        let ghost es = insert_entries(f, vector@, layer, connections@);
        proof {
            assert(wal::entries_view(entries@) =~= es);
            assert forall|j: int| 0 <= j < es.len() implies wal::countable(#[trigger] es[j])
                && wal::entry_bytes(es[j]).len() + 28 <= u32::MAX by {
                wal::entry_len(es[j]);
                if 0 < j < es.len() - 1 {
                    assert(es[j] == link_entries(connections@)[j - 1]);
                    assert(connections@[j - 1].2@.len() <= 2 * h.m);
                }
            }
        }
        let ghost log = self.wal.log@;
        match self.wal.append_committed(&entries) {
            Ok(_) => {},
            Err(e) => {
                return Err(e);
            },
        }
        let mut j: usize = 0;
        assert(connections@.take(0) =~= Seq::empty());
        while j < n
            invariant
                j <= n,
                n == connections@.len(),
                self.vecfile@.wf(),
                f2.wf(),
                self.vecfile@ == connected(f2, connections@.take(j as int)),
                self.vecfile@.header == f2.header,
                self.vecfile.key() == old(self).vecfile.key(),
                self.rowid_to_node@ == old(self).rowid_to_node@,
                self.node_to_rowid@ == old(self).node_to_rowid@,
                self.rng_state == old(self).rng_state,
                self.wal.cipher == old(self).wal.cipher,
                wal::appended_all(
                    log,
                    self.wal.log@,
                    old(self).vecfile.key(),
                    es.push(EntryView::Commit),
                ),
            decreases n - j,
        {
            proof {
                assert(connections@.take(j + 1).drop_last() =~= connections@.take(j as int));
                assert(connections@.take(j + 1).last() == connections@[j as int]);
            }
            let target: u32 = connections[j].0;
            if target < self.vecfile.header().node_capacity && connections[j].2.len()
                <= u32::MAX as usize {
                self.vecfile.write_neighbors(target, connections[j].1, &connections[j].2);
            }
            j += 1;
        }
        assert(connections@.take(n as int) =~= connections@);
        self.vecfile.header.entry_point = Some(new_ep);
        self.vecfile.header.max_layer = new_max;
        self.rowid_to_node.insert(rowid, node);
        self.node_to_rowid.insert(node, rowid);
        proof {
            assert(f2 == with_new_node(f, vector@, layer));
            assert(planned(measures(*distance), f2, node, layer, connections@));
            assert(self@.file =~= with_inserted(f, vector@, layer, connections@));
        }
        Ok(node)
    }

    /// Delete the vector of a row. The log gets a committed transaction that does
    /// the same.
    pub fn delete(&mut self, rowid: u64) -> (r: Result<()>)
        requires
            old(self).inv(),
        ensures
            final(self).inv(),
            final(self).vecfile.key() == old(self).vecfile.key(),
            final(self).rng_state == old(self).rng_state,
            delete_outcome(*old(self), *final(self), rowid, r),
    {
        broadcast use vstd::std_specs::hash::group_hash_axioms;

        let node: u32 = match self.rowid_to_node.get(&rowid) {
            Some(n) => *n,
            None => {
                return Err(BoogyError::VectorError(owned("rowid not found")));
            },
        };
        let h = *self.vecfile.header();
        if node >= h.node_capacity || h.free_list_len == u32::MAX {
            return Err(BoogyError::Corruption(owned("vec file: bad node")));
        }
        let ghost f = self.vecfile@;
        let at_node: bool = match h.entry_point {
            Some(ep) => ep == node,
            None => false,
        };
        let new_ep: Option<u32> = if at_node {
            let list = self.vecfile.read_neighbors(node, 0);
            find_open(&self.vecfile, &list)
        } else {
            h.entry_point
        };
        let raw: u32 = match new_ep {
            Some(ep) => ep,
            None => NONE_U32,
        };
        let mut entries: Vec<WalEntry> = Vec::new();
        entries.push(WalEntry::DeleteNode { node_id: node });
        entries.push(
            WalEntry::UpdateHeader {
                entry_point: raw,
                node_count: h.node_count,
                max_layer: h.max_layer,
            },
        );
        proof {
            let es = delete_entries(f, node);
            assert(wal::entries_view(entries@) =~= es);
            wal::entry_len(es[0]);
            wal::entry_len(es[1]);
        }
        match self.wal.append_committed(&entries) {
            Ok(_) => {},
            Err(e) => {
                return Err(e);
            },
        }
        self.vecfile.free_node(node);
        self.vecfile.header.entry_point = new_ep;
        self.rowid_to_node.remove(&rowid);
        self.node_to_rowid.remove(&node);
        Ok(())
    }

    /// Update the vector of a row: delete, then insert.
    pub fn update<F: Fn(&[u32], &[u32]) -> i64>(
        &mut self,
        rowid: u64,
        vector: &[u32],
        layer: u32,
        distance: &F,
    ) -> (r: Result<u32>)
        requires
            old(self).inv(),
            layer < u32::MAX,
            forall|a: &[u32], b: &[u32]| call_requires(distance, (a, b)),
        ensures
            final(self).inv(),
            final(self).vecfile.key() == old(self).vecfile.key(),
            final(self).rng_state == old(self).rng_state,
            update_outcome(
                measures(*distance),
                *old(self),
                *final(self),
                rowid,
                vector@,
                layer,
                r,
            ),
    {
        match self.delete(rowid) {
            Ok(_) => {},
            Err(e) => {
                return Err(e);
            },
        }
        let ghost mid = *self;
        let r = self.insert(rowid, vector, layer, distance);
        assert(delete_outcome(*old(self), mid, rowid, Ok(())));
        r
    }

    /// Search for the `k` nearest vectors to a query. Rows that are not allowed are
    /// passed through but not returned.
    pub fn search<F: Fn(&[u32], &[u32]) -> i64, A: Fn(u64) -> bool>(
        &self,
        query: &[u32],
        k: u32,
        ef_search: u32,
        distance: &F,
        allows: Option<&A>,
    ) -> (r: Result<Vec<VectorResult>>)
        requires
            self.inv(),
            forall|a: &[u32], b: &[u32]| call_requires(distance, (a, b)),
            allows matches Some(f) ==> forall|x: u64| call_requires(f, (x,)),
        ensures
            r is Ok <==> query@.len() == self@.file.header.dimensions,
            r matches Ok(v) ==> searched(
                measures(*distance),
                self@,
                rows_allowed(self@.rows, allows),
                query@,
                k,
                ef_search,
                v@,
            ),
            r matches Err(e) ==> e == (BoogyError::VectorDimensionMismatch {
                expected: self@.file.header.dimensions,
                got: query@.len() as u32,
            }),
    {
        broadcast use vstd::std_specs::hash::group_hash_axioms;

        let h = *self.vecfile.header();
        if query.len() != h.dimensions as usize {
            return Err(
                BoogyError::VectorDimensionMismatch {
                    expected: h.dimensions,
                    got: query.len() as u32,
                },
            );
        }
        let ep: u32 = match h.entry_point {
            Some(ep) => ep,
            None => {
                return Ok(Vec::new());
            },
        };
        let file = &self.vecfile;
        let rows = &self.node_to_rowid;
        let cap: u32 = h.node_capacity;
        let ghost f = file@;
        let ghost g = measures(*distance);
        let dist = |v: u32| -> (d: i64)
            ensures
                near_answer(file, distance, query, v, d),
            {
                if v < cap {
                    let w = file.read_vector(v);
                    let d: i64 = distance(query, w);
                    d
                } else {
                    i64::MAX
                }
            };
        let read = |v: u32, l: u32| -> (r: Vec<u32>)
            ensures
                linked_in(file@)(v, l, r@),
            {
                if v < cap {
                    file.read_neighbors(v, l)
                } else {
                    let none: Vec<u32> = Vec::new();
                    assert(none@ =~= Seq::empty());
                    none
                }
            };
        let gone = |v: u32| -> (b: bool)
            ensures
                gone_in(file@)(v, b),
            {
                v >= cap || file.is_deleted(v)
            };
        let allowed = |v: u32| -> (b: bool)
            ensures
                allow_answer(rows, allows, v, b),
            {
                match allows {
                    None => true,
                    Some(asks) => match rows.get(&v) {
                        Some(row) => {
                            let b: bool = asks(*row);
                            b
                        },
                        None => false,
                    },
                }
            };
        let found = hnsw::search(
            k,
            ef_search,
            ep,
            h.max_layer,
            &dist,
            &read,
            &gone,
            &allowed,
        ).neighbors;
        proof {
            hnsw::nearest_found_within(
                hnsw::near(dist),
                from_vector(g, f, query@),
                hnsw::lists(read),
                linked_in(f),
                hnsw::flags(gone),
                gone_in(f),
                hnsw::flags(allowed),
                rows_allowed(rows@, allows),
                k,
                ef_search,
                ep,
                h.max_layer,
                found@,
            );
        }
        let mut out: Vec<VectorResult> = Vec::new();
        let n: usize = found.len();
        let mut i: usize = 0;
        assert(found@.take(0) =~= Seq::empty());
        while i < n
            invariant
                i <= n,
                n == found@.len(),
                rows == &self.node_to_rowid,
                out@ == results_of(self@.rows, found@.take(i as int)),
            decreases n - i,
        {
            let x: hnsw::Scored = found[i];
            proof {
                assert(found@.take(i + 1).drop_last() =~= found@.take(i as int));
                assert(found@.take(i + 1).last() == x);
            }
            match rows.get(&x.0) {
                Some(row) => {
                    out.push(VectorResult { rowid: *row, distance: x.1 });
                },
                None => {},
            }
            i += 1;
        }
        assert(found@.take(n as int) =~= found@);
        Ok(out)
    }

    /// Number of vectors in the collection.
    pub fn len(&self) -> (n: usize)
        ensures
            n == self@.nodes.len(),
    {
        broadcast use vstd::std_specs::hash::group_hash_axioms;

        self.rowid_to_node.len()
    }

    /// Whether the collection is empty.
    pub fn is_empty(&self) -> (b: bool)
        ensures
            b == (self@.nodes.len() == 0),
    {
        broadcast use vstd::std_specs::hash::group_hash_axioms;

        self.rowid_to_node.len() == 0
    }

    /// Dimensions of vectors in this collection.
    pub fn dimensions(&self) -> (d: u32)
        ensures
            d == self@.file.header.dimensions,
    {
        self.vecfile.header().dimensions
    }

    /// Distance metric used by this collection.
    pub fn metric(&self) -> (m: DistanceMetric)
        ensures
            m == self@.file.header.metric,
    {
        self.vecfile.header().metric
    }

    /// The node of a row.
    pub fn node_id_for_rowid(&self, rowid: u64) -> (r: Option<u32>)
        ensures
            r == (if self@.nodes.contains_key(rowid) {
                Some(self@.nodes[rowid])
            } else {
                None
            }),
    {
        broadcast use vstd::std_specs::hash::group_hash_axioms;

        match self.rowid_to_node.get(&rowid) {
            Some(n) => Some(*n),
            None => None,
        }
    }

    /// The log was carried out and the file written: clears the log.
    pub fn checkpoint(&mut self)
        requires
            old(self).inv(),
        ensures
            final(self).inv(),
            final(self)@ == old(self)@,
            final(self).vecfile == old(self).vecfile,
            final(self).rng_state == old(self).rng_state,
            final(self).wal.log@.len() == 0,
    {
        self.wal.truncate();
    }

    /// The next random number.
    pub fn next_rng(&mut self) -> (x: u64)
        ensures
            x == xorshift(old(self).rng_state),
            final(self).rng_state == x,
            final(self)@ == old(self)@,
            final(self).vecfile == old(self).vecfile,
            final(self).wal == old(self).wal,
    {
        let x: u64 = self.rng_state;
        let a: u64 = x ^ (x << 13u64);
        let b: u64 = a ^ (a >> 7u64);
        let c: u64 = b ^ (b << 17u64);
        self.rng_state = c;
        c
    }
}

/// Replaying the log of a delete does what the delete did.
pub proof fn delete_replayed(f: FileView, node: u32)
    requires
        f.wf(),
        vecfile::header_storable(f.header),
        node < f.header.node_capacity,
        f.header.free_list_len < u32::MAX,
    ensures
        replayed_all(f, delete_entries(f, node)) == Some(with_deleted(f, node)),
{
    let es = delete_entries(f, node);
    first_open_inside(f, f.neighbors_of(node, 0));
    assert(es.drop_last() =~= seq![es[0]]);
    assert(seq![es[0]].drop_last() =~= Seq::empty());
    assert(replayed_all(f, Seq::empty()) == Some(f));
    assert(replayed_all(f, seq![es[0]]) == Some(vecfile::without_node(f, node)));
}

proof fn first_open_inside(f: FileView, list: Seq<u32>)
    ensures
        first_open(f, list) matches Some(v) ==> v < f.header.node_capacity,
    decreases list.len(),
{
    if list.len() > 0 {
        first_open_inside(f, list.skip(1));
    }
}

/// Replaying the log of an insert does what the insert did, whether the node is new or
/// was used before.
pub proof fn insert_replayed(
    g: Measure,
    f: FileView,
    vector: Seq<u32>,
    layer: u32,
    connections: Seq<(u32, u32, Vec<u32>)>,
)
    requires
        f.wf(),
        f.header.m <= 128,
        forall|n: u32|
            f.header.node_count <= n < f.header.node_capacity ==> #[trigger] f.deleted[n as int]
                == 0,
        vector.len() == f.header.dimensions,
        insertable(f, layer),
        planned(g, with_new_node(f, vector, layer), next_node(f), layer, connections),
        vecfile::header_storable(f.header),
    ensures
        replayed_all(f, insert_entries(f, vector, layer, connections)) == Some(
            with_inserted(f, vector, layer, connections),
        ),
{
    let node = next_node(f);
    let f0 = vecfile::with_node(f);
    let f2 = with_new_node(f, vector, layer);
    let es = insert_entries(f, vector, layer, connections);
    if f.header.free_list_head is None && f.header.node_count >= f.header.node_capacity {
        vecfile::doubling_keeps(f);
    }
    assert(f0.wf());
    assert(node < f0.header.node_capacity);
    if f.header.free_list_head is None {
        assert(allocated_until(f0, node) == Some(f0));
        assert(allocated_until(f, node) == Some(f0));
    }
    assert(taken(f, node) == Some(f0));
    record_wf(vecfile::with_vector(f0, node, vector), node, layer);
    assert(f2.deleted.update(node as int, 0) =~= f2.deleted);
    let first = seq![es[0]];
    assert(first.drop_last() =~= Seq::empty());
    assert(replayed_all(f, Seq::empty()) == Some(f));
    assert(replayed_all(f, first) == Some(f2));
    plan_short(g, f2, node, layer, connections);
    links_replayed(f, f2, first, connections);
    let body = first + link_entries(connections);
    assert(es.drop_last() =~= body);
    connected_header(f2, connections);
}

/// Neighbor lists leave the header and the vectors alone.
proof fn connected_header(f: FileView, connections: Seq<(u32, u32, Vec<u32>)>)
    ensures
        connected(f, connections).header == f.header,
        connected(f, connections).vectors == f.vectors,
        connected(f, connections).deleted == f.deleted,
    decreases connections.len(),
{
    if connections.len() > 0 {
        connected_header(f, connections.drop_last());
    }
}

proof fn links_replayed(
    f: FileView,
    g: FileView,
    first: Seq<EntryView>,
    connections: Seq<(u32, u32, Vec<u32>)>,
)
    requires
        replayed_all(f, first) == Some(g),
        forall|i: int|
            0 <= i < connections.len() ==> (#[trigger] connections[i]).2@.len() <= u32::MAX
                && connections[i].0 < g.header.node_capacity,
    ensures
        replayed_all(f, first + link_entries(connections)) == Some(connected(g, connections)),
    decreases connections.len(),
{
    let all = first + link_entries(connections);
    if connections.len() == 0 {
        assert(all =~= first);
    } else {
        let rest = connections.drop_last();
        assert forall|i: int| 0 <= i < rest.len() implies (#[trigger] rest[i]).2@.len() <= u32::MAX
            && rest[i].0 < g.header.node_capacity by {
            assert(rest[i] == connections[i]);
        }
        links_replayed(f, g, first, rest);
        assert(all.drop_last() =~= first + link_entries(rest));
        connected_header(g, rest);
    }
}

/// An inserted vector is stored, and the vectors of other nodes stay.
pub proof fn insert_keeps_vectors(
    f: FileView,
    vector: Seq<u32>,
    layer: u32,
    connections: Seq<(u32, u32, Vec<u32>)>,
)
    requires
        f.wf(),
        insertable(f, layer),
        vector.len() == f.header.dimensions,
    ensures
        with_inserted(f, vector, layer, connections).vector_of(next_node(f)) == vector,
        forall|n: u32|
            n != next_node(f) && n < f.header.node_capacity ==> #[trigger] with_inserted(
                f,
                vector,
                layer,
                connections,
            ).vector_of(n) == f.vector_of(n),
{
    let node = next_node(f);
    let dims = f.header.dimensions;
    let f0 = vecfile::with_node(f);
    let g = with_inserted(f, vector, layer, connections);
    if f.header.free_list_head is None && f.header.node_count >= f.header.node_capacity {
        vecfile::doubling_keeps(f);
    }
    connected_header(with_new_node(f, vector, layer), connections);
    vecfile::slot_inside(node as int, dims as int, f0.header.node_capacity as int);
    assert(g.vector_of(node) =~= vector);
    assert forall|n: u32| n != node && n < f.header.node_capacity implies #[trigger] g.vector_of(n)
        == f.vector_of(n) by {
        vecfile::slot_inside(n as int, dims as int, f.header.node_capacity as int);
        vecfile::slot_inside(n as int, dims as int, f0.header.node_capacity as int);
        vecfile::slots_apart(n as int, node as int, dims as int);
        assert(f0.vector_of(n) == f.vector_of(n));
        assert(g.vector_of(n) =~= f0.vector_of(n));
    }
}

/// A row whose vector was deleted is not found.
pub proof fn deleted_not_found(a: CollectionView, rowid: u64, found: Seq<hnsw::Scored>)
    requires
        a.nodes.contains_key(rowid),
        forall|v: u32| #[trigger] a.rows.contains_key(v) && a.rows[v] == rowid ==> v
            == a.nodes[rowid],
    ensures
        forall|i: int|
            0 <= i < results_of(without_row(a, rowid).rows, found).len() ==> (
            #[trigger] results_of(without_row(a, rowid).rows, found)[i]).rowid != rowid,
    decreases found.len(),
{
    if found.len() > 0 {
        deleted_not_found(a, rowid, found.drop_last());
        let rows = without_row(a, rowid).rows;
        let rest = results_of(rows, found.drop_last());
        let all = results_of(rows, found);
        let x = found.last();
        assert forall|i: int| 0 <= i < all.len() implies (#[trigger] all[i]).rowid != rowid by {
            if i < rest.len() {
                assert(all[i] == rest[i]);
            } else {
                assert(a.rows.contains_key(x.0));
            }
        }
    }
}

}
