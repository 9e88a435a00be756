//! The file of a vector collection: vectors, graph records, deleted flags and a
//! list of free nodes.
//!
//! A file holds a header, the vectors, the node index, the graph data and the
//! deleted flags, one region after the other. Components of vectors are the bits
//! of their values.

use crate::bytes;
use crate::bytes::{append, bytes_u32, bytes_u64, read_u32, read_u64};
use crate::crypto;
use crate::crypto::Cipher;
use crate::error::{owned, BoogyError, Result};
use crate::table;
use crate::vector::types;
use crate::vector::types::DistanceMetric;
use crate::vector::wal;
use crate::vector::wal::{append_words, read_words};
use vstd::prelude::*;

verus! {

pub const HEADER_SIZE: usize = 4096;

pub const VERSION: u32 = 1;

/// No entry point, no neighbor, no next free node.
pub const NONE_U32: u32 = 0xFFFF_FFFF;

/// No graph record.
pub const NONE_U64: u64 = 0xFFFF_FFFF_FFFF_FFFF;

/// The header of a vector file.
#[derive(Debug, Clone, Copy)]
pub struct VecFileHeader {
    pub dimensions: u32,
    pub metric: DistanceMetric,
    pub m: u32,
    pub ef_construction: u32,
    /// `None` = no entry point.
    pub entry_point: Option<u32>,
    pub node_count: u32,
    pub max_layer: u32,
    pub node_capacity: u32,
    /// `None` = free list empty.
    pub free_list_head: Option<u32>,
    pub free_list_len: u32,
    /// Bytes used in the graph data area.
    pub graph_data_len: u64,
}

/// A vector file: its header and its regions.
pub struct VecFile {
    pub header: VecFileHeader,
    pub vectors: Vec<u32>,
    pub index: Vec<u64>,
    pub graph: Vec<u32>,
    pub deleted: Vec<u8>,
    pub cipher: Option<Cipher>,
}

/// A vector file as a mathematical value.
#[verifier::ext_equal]
pub struct FileView {
    pub header: VecFileHeader,
    pub vectors: Seq<u32>,
    pub index: Seq<u64>,
    pub graph: Seq<u32>,
    pub deleted: Seq<u8>,
}

impl View for VecFile {
    type V = FileView;

    open spec fn view(&self) -> FileView {
        FileView {
            header: self.header,
            vectors: self.vectors@,
            index: self.index@,
            graph: self.graph@,
            deleted: self.deleted@,
        }
    }
}

/// The number of words that the graph data area reserves for a node: room for a
/// record of 17 layers.
pub open spec fn words_per_node(m: u32) -> int {
    18 + 18 * m
}

/// Where the node index starts.
pub open spec fn node_index_offset(capacity: u32, dims: u32) -> int {
    4096 + 4 * (capacity * dims)
}

/// Where the graph data starts.
pub open spec fn graph_data_offset(capacity: u32, dims: u32) -> int {
    node_index_offset(capacity, dims) + 8 * capacity
}

/// Where the deleted flags start.
pub open spec fn deleted_flags_offset(capacity: u32, dims: u32, m: u32) -> int {
    graph_data_offset(capacity, dims) + 4 * (words_per_node(m) * capacity)
}

/// The size of a file.
pub open spec fn file_size(capacity: u32, dims: u32, m: u32) -> int {
    deleted_flags_offset(capacity, dims, m) + capacity
}

/// The most neighbors at a layer of a record.
pub open spec fn layer_cap(layer: int, m: u32) -> int {
    if layer <= 0 {
        2 * m
    } else {
        m as int
    }
}

/// Where a layer starts in a record, in words: behind the number of layers and
/// the layers below.
pub open spec fn layer_at(layer: int, m: u32) -> int {
    if layer <= 0 {
        1
    } else {
        2 + 2 * m + (layer - 1) * (1 + m)
    }
}

/// The number of words of a record.
pub open spec fn record_words(max_layer: u32, m: u32) -> int {
    layer_at(max_layer + 1, m)
}

/// A list without the places that are not taken.
pub open spec fn present(s: Seq<u32>) -> Seq<u32>
    decreases s.len(),
{
    if s.len() == 0 {
        Seq::empty()
    } else if s.last() == NONE_U32 {
        present(s.drop_last())
    } else {
        present(s.drop_last()).push(s.last())
    }
}

/// A list of nodes is present as a whole.
pub proof fn present_whole(s: Seq<u32>)
    requires
        !s.contains(NONE_U32),
    ensures
        present(s) == s,
    decreases s.len(),
{
    if s.len() > 0 {
        assert(s.contains(s.last()));
        assert forall|x: u32| s.drop_last().contains(x) implies s.contains(x) by {
            let i = choose|i: int| 0 <= i < s.drop_last().len() && s.drop_last()[i] == x;
            assert(s[i] == x);
        }
        present_whole(s.drop_last());
        assert(s.drop_last().push(s.last()) =~= s);
    } else {
        assert(present(s) =~= s);
    }
}

pub open spec fn min_of(a: int, b: int) -> int {
    if a <= b {
        a
    } else {
        b
    }
}

impl FileView {
    /// The regions are as large as the header says, and the used part of the graph
    /// data lies within it.
    pub open spec fn wf(self) -> bool {
        let h = self.header;
        &&& file_size(h.node_capacity, h.dimensions, h.m) <= usize::MAX
        &&& self.vectors.len() == h.node_capacity * h.dimensions
        &&& self.index.len() == h.node_capacity
        &&& self.graph.len() == words_per_node(h.m) * h.node_capacity
        &&& self.deleted.len() == h.node_capacity
        &&& h.node_count <= h.node_capacity
        &&& h.graph_data_len % 4 == 0
        &&& h.graph_data_len / 4 <= self.graph.len()
    }

    /// The used part of the graph data, in words.
    pub open spec fn used(self) -> int {
        self.header.graph_data_len as int / 4
    }

    /// The vector of a node.
    pub open spec fn vector_of(self, node: u32) -> Seq<u32> {
        let dims = self.header.dimensions;
        self.vectors.subrange(node * dims, node * dims + dims)
    }

    /// Whether a node is deleted.
    pub open spec fn is_gone(self, node: u32) -> bool {
        self.deleted[node as int] != 0
    }

    /// Where the record of a node starts in the graph data, in words.
    pub open spec fn record_of(self, node: u32) -> Option<int> {
        let v = self.index[node as int];
        let o = v as int / 4;
        if v == NONE_U64 || v % 4 != 0 || o >= self.used() || o + record_words(
            self.graph[o],
            self.header.m,
        ) > self.used() {
            None
        } else {
            Some(o)
        }
    }

    /// The neighbors in a record at a layer.
    pub open spec fn list_at(self, o: int, layer: u32) -> Seq<u32> {
        let at = o + layer_at(layer as int, self.header.m);
        present(
            self.graph.subrange(
                at + 1,
                at + 1 + min_of(self.graph[at] as int, layer_cap(layer as int, self.header.m)),
            ),
        )
    }

    /// The neighbors of a node at a layer.
    pub open spec fn neighbors_of(self, node: u32, layer: u32) -> Seq<u32> {
        match self.record_of(node) {
            Some(o) => if layer <= self.graph[o] {
                self.list_at(o, layer)
            } else {
                Seq::empty()
            },
            None => Seq::empty(),
        }
    }

    /// Two nodes do not share parts of their records.
    pub open spec fn records_apart(self, a: u32, b: u32) -> bool {
        self.record_of(a) matches Some(x) ==> self.record_of(b) matches Some(y) ==> x + record_words(
            self.graph[x],
            self.header.m,
        ) <= y || y + record_words(self.graph[y], self.header.m) <= x
    }

    /// What the index says of a node is true: it has no record, or a whole one.
    pub open spec fn recorded(self, node: u32) -> bool {
        self.index[node as int] == NONE_U64 || self.record_of(node) is Some
    }

    /// The index is true, and no two nodes share parts of their records.
    pub open spec fn apart(self) -> bool {
        &&& forall|a: u32| a < self.header.node_capacity ==> #[trigger] self.recorded(a)
        &&& forall|a: u32, b: u32|
            a != b && a < self.header.node_capacity && b < self.header.node_capacity
                ==> #[trigger] self.records_apart(a, b)
    }

    /// The free nodes, in the order in which they are used again: each is deleted,
    /// and its vector starts with the number of the next.
    pub open spec fn free_chain(self, chain: Seq<u32>) -> bool {
        &&& chain.len() == self.header.free_list_len
        &&& self.header.free_list_head == if chain.len() == 0 {
            None
        } else {
            Some(chain[0])
        }
        &&& chain.no_duplicates()
        &&& forall|i: int|
            0 <= i < chain.len() ==> self.chained(
                #[trigger] chain[i],
                if i + 1 < chain.len() {
                    chain[i + 1]
                } else {
                    NONE_U32
                },
            )
    }

    /// The node is free, and another is the next free one.
    pub open spec fn chained(self, node: u32, next: u32) -> bool {
        &&& node < self.header.node_count
        &&& self.is_gone(node)
        &&& self.vectors[node * self.header.dimensions] == next
    }
}

/// A slot lies within the vectors.
pub proof fn slot_inside(node: int, dims: int, capacity: int)
    by (nonlinear_arith)
    requires
        0 <= node < capacity,
        0 <= dims,
    ensures
        0 <= node * dims,
        node * dims + dims <= capacity * dims,
{
}

/// Slots do not overlap.
pub proof fn slots_apart(a: int, b: int, dims: int)
    by (nonlinear_arith)
    requires
        a != b,
        0 <= dims,
    ensures
        a * dims + dims <= b * dims || b * dims + dims <= a * dims,
{
}

/// Layers follow one another in a record.
proof fn layers_follow(a: int, b: int, m: u32)
    requires
        0 <= a < b,
    ensures
        1 <= layer_at(a, m),
        layer_at(a, m) + 1 + layer_cap(a, m) <= layer_at(b, m),
{
    assert((b - 1) * (1 + m) == (b - 1) + (b - 1) * m) by (nonlinear_arith);
    if a > 0 {
        assert((a - 1) * (1 + m) + 1 + m <= (b - 1) * (1 + m)) by (nonlinear_arith)
            requires
                0 < a < b,
        ;
        assert(0 <= (a - 1) * (1 + m)) by (nonlinear_arith)
            requires
                0 < a,
        ;
    } else {
        assert(0 <= (b - 1) * (1 + m)) by (nonlinear_arith)
            requires
                0 < b,
        ;
    }
}

fn layer_word(layer: u32, m: u32) -> (r: u128)
    ensures
        r == layer_at(layer as int, m),
{
    if layer == 0 {
        1
    } else {
        assert(0 <= (layer - 1) * (1 + m) <= 0x1_0000_0000 * 0x1_0000_0000) by (nonlinear_arith)
            requires
                0 < layer <= 0xFFFF_FFFF,
                0 <= m <= 0xFFFF_FFFF,
        ;
        2 + 2 * m as u128 + (layer as u128 - 1) * (1 + m as u128)
    }
}

fn record_size(max_layer: u32, m: u32) -> (r: u128)
    ensures
        r == record_words(max_layer, m),
        r <= 0x1_0000_0000_0000_0000_0000,
{
    assert(0 <= max_layer * (1 + m) <= 0x1_0000_0000 * 0x1_0000_0000) by (nonlinear_arith)
        requires
            0 <= max_layer <= 0xFFFF_FFFF,
            0 <= m <= 0xFFFF_FFFF,
    ;
    2 + 2 * m as u128 + max_layer as u128 * (1 + m as u128)
}

fn none_if(v: u32) -> (r: Option<u32>)
    ensures
        r == option_of(v),
{
    if v == NONE_U32 {
        None
    } else {
        Some(v)
    }
}

/// What a stored number of a node stands for.
pub open spec fn option_of(v: u32) -> Option<u32> {
    if v == NONE_U32 {
        None
    } else {
        Some(v)
    }
}

/// How a node or none is stored.
pub open spec fn stored(v: Option<u32>) -> u32 {
    match v {
        Some(x) => x,
        None => NONE_U32,
    }
}

/// The size of a file with its parts, if it can be held in memory.
fn sizes(capacity: u32, dims: u32, m: u32) -> (r: Option<(usize, usize)>)
    ensures
        r is Some <==> file_size(capacity, dims, m) <= usize::MAX,
        r matches Some(p) ==> p.0 == capacity * dims && p.1 == words_per_node(m) * capacity,
{
    assert(0 <= capacity * dims <= 0x1_0000_0000 * 0x1_0000_0000) by (nonlinear_arith)
        requires
            0 <= capacity <= 0xFFFF_FFFF,
            0 <= dims <= 0xFFFF_FFFF,
    ;
    assert(0 <= words_per_node(m) * capacity <= 0x20_0000_0000 * 0x1_0000_0000)
        by (nonlinear_arith)
        requires
            0 <= capacity <= 0xFFFF_FFFF,
            words_per_node(m) == 18 + 18 * m,
            0 <= m <= 0xFFFF_FFFF,
    ;
    let a: u128 = capacity as u128 * dims as u128;
    let g: u128 = (18 + 18 * m as u128) * capacity as u128;
    let total: u128 = 4096 + 4 * a + 8 * capacity as u128 + 4 * g + capacity as u128;
    if total <= usize::MAX as u128 {
        Some((a as usize, g as usize))
    } else {
        None
    }
}

/// A file without nodes.
pub open spec fn blank_file(
    dimensions: u32,
    metric: DistanceMetric,
    m: u32,
    ef_construction: u32,
    capacity: u32,
) -> FileView {
    FileView {
        header: VecFileHeader {
            dimensions,
            metric,
            m,
            ef_construction,
            entry_point: None,
            node_count: 0,
            max_layer: 0,
            node_capacity: capacity,
            free_list_head: None,
            free_list_len: 0,
            graph_data_len: 0,
        },
        vectors: Seq::new((capacity * dimensions) as nat, |i: int| 0u32),
        index: Seq::new(capacity as nat, |i: int| NONE_U64),
        graph: Seq::new((words_per_node(m) * capacity) as nat, |i: int| 0u32),
        deleted: Seq::new(capacity as nat, |i: int| 0u8),
    }
}

/// A file without nodes is sound.
pub proof fn blank_sound(
    dimensions: u32,
    metric: DistanceMetric,
    m: u32,
    ef_construction: u32,
    capacity: u32,
)
    requires
        file_size(capacity, dimensions, m) <= usize::MAX,
    ensures
        blank_file(dimensions, metric, m, ef_construction, capacity).wf(),
        blank_file(dimensions, metric, m, ef_construction, capacity).apart(),
        blank_file(dimensions, metric, m, ef_construction, capacity).free_chain(Seq::empty()),
{
    let f = blank_file(dimensions, metric, m, ef_construction, capacity);
    assert(capacity * dimensions >= 0) by (nonlinear_arith)
        requires
            capacity >= 0,
            dimensions >= 0,
    ;
    assert(words_per_node(m) * capacity >= 0) by (nonlinear_arith)
        requires
            words_per_node(m) >= 0,
            capacity >= 0,
    ;
    assert forall|a: u32| a < f.header.node_capacity implies #[trigger] f.recorded(a) by {
        assert(f.index[a as int] == NONE_U64);
    }
    assert forall|a: u32, b: u32|
        a != b && a < f.header.node_capacity && b < f.header.node_capacity implies #[trigger] f.records_apart(
    a, b) by {
        assert(f.index[a as int] == NONE_U64);
    }
}

/// A file of twice the capacity.
pub open spec fn doubled(f: FileView) -> FileView {
    let h = f.header;
    let capacity = (2 * h.node_capacity) as u32;
    FileView {
        header: VecFileHeader { node_capacity: capacity, ..h },
        vectors: f.vectors + Seq::new(
            (capacity * h.dimensions - f.vectors.len()) as nat,
            |i: int| 0u32,
        ),
        index: f.index + Seq::new(h.node_capacity as nat, |i: int| NONE_U64),
        graph: f.graph + Seq::new(
            (words_per_node(h.m) * capacity - f.graph.len()) as nat,
            |i: int| 0u32,
        ),
        deleted: f.deleted + Seq::new(h.node_capacity as nat, |i: int| 0u8),
    }
}

/// The file can be made twice as large.
pub open spec fn can_double(f: FileView) -> bool {
    let h = f.header;
    &&& 0 < h.node_capacity <= 0x7FFF_FFFF
    &&& file_size((2 * h.node_capacity) as u32, h.dimensions, h.m) <= usize::MAX
}

/// What allocating a node does to a file.
pub open spec fn with_node(f: FileView) -> FileView {
    let h = f.header;
    match h.free_list_head {
        Some(head) => FileView {
            header: VecFileHeader {
                free_list_head: option_of(f.vectors[head * h.dimensions]),
                free_list_len: (h.free_list_len - 1) as u32,
                ..h
            },
            deleted: f.deleted.update(head as int, 0),
            index: f.index.update(head as int, NONE_U64),
            ..f
        },
        None => {
            let g = if h.node_count >= h.node_capacity {
                doubled(f)
            } else {
                f
            };
            FileView {
                header: VecFileHeader { node_count: (h.node_count + 1) as u32, ..g.header },
                ..g
            }
        },
    }
}

/// A node can be allocated.
pub open spec fn can_allocate(f: FileView) -> bool {
    let h = f.header;
    match h.free_list_head {
        Some(head) => head < h.node_capacity && h.free_list_len > 0 && h.dimensions > 0,
        None => h.node_count < h.node_capacity || can_double(f),
    }
}

/// What freeing a node does to a file.
pub open spec fn without_node(f: FileView, node: u32) -> FileView {
    let h = f.header;
    FileView {
        header: VecFileHeader {
            free_list_head: Some(node),
            free_list_len: (h.free_list_len + 1) as u32,
            ..h
        },
        vectors: f.vectors.update(node * h.dimensions, stored(h.free_list_head)),
        deleted: f.deleted.update(node as int, 1),
        ..f
    }
}

/// What writing a vector does to a file.
pub open spec fn with_vector(f: FileView, node: u32, vector: Seq<u32>) -> FileView {
    let at = node * f.header.dimensions;
    FileView {
        vectors: Seq::new(
            f.vectors.len(),
            |i: int|
                if at <= i < at + vector.len() {
                    vector[i - at]
                } else {
                    f.vectors[i]
                },
        ),
        ..f
    }
}

/// What writing neighbors does to the graph data.
pub open spec fn with_list(
    g: Seq<u32>,
    at: int,
    cap: int,
    list: Seq<u32>,
) -> Seq<u32> {
    Seq::new(
        g.len(),
        |i: int|
            if i == at {
                list.len() as u32
            } else if at < i <= at + cap {
                if i - at - 1 < list.len() {
                    list[i - at - 1]
                } else {
                    NONE_U32
                }
            } else {
                g[i]
            },
    )
}

/// What writing neighbors does to a file.
pub open spec fn with_neighbors(f: FileView, node: u32, layer: u32, list: Seq<u32>) -> FileView {
    match f.record_of(node) {
        Some(o) => if layer <= f.graph[o] {
            FileView {
                graph: with_list(
                    f.graph,
                    o + layer_at(layer as int, f.header.m),
                    layer_cap(layer as int, f.header.m),
                    list,
                ),
                ..f
            }
        } else {
            f
        },
        None => f,
    }
}

/// The graph data has room for a record.
pub open spec fn has_room(f: FileView, max_layer: u32) -> bool {
    f.used() + record_words(max_layer, f.header.m) <= f.graph.len()
}

/// A word of a record is the number of neighbors at some layer.
pub open spec fn counts(k: int, low: int, max_layer: u32, m: u32) -> bool {
    exists|l: int| low <= l <= max_layer && #[trigger] layer_at(l, m) == k
}

/// What adding a record without neighbors for a node does to a file.
pub open spec fn with_record(f: FileView, node: u32, max_layer: u32) -> FileView {
    let o = f.used();
    let n = record_words(max_layer, f.header.m);
    FileView {
        header: VecFileHeader {
            graph_data_len: (f.header.graph_data_len + 4 * n) as u64,
            ..f.header
        },
        index: f.index.update(node as int, f.header.graph_data_len),
        graph: Seq::new(
            f.graph.len(),
            |i: int|
                if i == o {
                    max_layer
                } else if o < i < o + n {
                    if counts(i - o, 0, max_layer, f.header.m) {
                        0
                    } else {
                        NONE_U32
                    }
                } else {
                    f.graph[i]
                },
        ),
        ..f
    }
}

impl VecFile {
    /// The key of the file.
    pub open spec fn key(&self) -> Option<Seq<u8>> {
        table::key_view(self.cipher)
    }

    /// Create a new vector file.
    pub fn create(
        dimensions: u32,
        metric: DistanceMetric,
        m: u32,
        ef_construction: u32,
        initial_capacity: u32,
        key: Option<&[u8; 32]>,
    ) -> (r: Result<VecFile>)
        ensures
            r is Ok <==> file_size(initial_capacity, dimensions, m) <= usize::MAX,
            r matches Ok(f) ==> f@ == blank_file(
                dimensions,
                metric,
                m,
                ef_construction,
                initial_capacity,
            ) && f.key() == crypto_key(key),
            r matches Err(e) ==> e is VectorError,
    {
        let (a, g) = match sizes(initial_capacity, dimensions, m) {
            Some(p) => p,
            None => {
                return Err(BoogyError::VectorError(owned("vec file: too large")));
            },
        };
        let mut vectors: Vec<u32> = Vec::new();
        vectors.resize(a, 0u32);
        let mut index: Vec<u64> = Vec::new();
        index.resize(initial_capacity as usize, NONE_U64);
        let mut graph: Vec<u32> = Vec::new();
        graph.resize(g, 0u32);
        let mut deleted: Vec<u8> = Vec::new();
        deleted.resize(initial_capacity as usize, 0u8);
        let cipher = match key {
            Some(k) => Some(Cipher::new(k)),
            None => None,
        };
        let header = VecFileHeader {
            dimensions,
            metric,
            m,
            ef_construction,
            entry_point: None,
            node_count: 0,
            max_layer: 0,
            node_capacity: initial_capacity,
            free_list_head: None,
            free_list_len: 0,
            graph_data_len: 0,
        };
        let f = VecFile { header, vectors, index, graph, deleted, cipher };
        proof {
            let b = blank_file(dimensions, metric, m, ef_construction, initial_capacity);
            assert(f@.vectors =~= b.vectors);
            assert(f@.index =~= b.index);
            assert(f@.graph =~= b.graph);
            assert(f@.deleted =~= b.deleted);
        }
        Ok(f)
    }

    pub fn header(&self) -> (h: &VecFileHeader)
        ensures
            *h == self@.header,
    {
        &self.header
    }

    pub fn header_mut(&mut self) -> (h: &mut VecFileHeader)
        ensures
            *h == old(self)@.header,
            final(self)@ == (FileView { header: *final(h), ..old(self)@ }),
            final(self).key() == old(self).key(),
    {
        &mut self.header
    }

    pub fn dimensions(&self) -> (d: u32)
        ensures
            d == self@.header.dimensions,
    {
        self.header.dimensions
    }

    /// Whether this file is encrypted at rest.
    pub fn is_encrypted(&self) -> (b: bool)
        ensures
            b == (self.key() is Some),
    {
        self.cipher.is_some()
    }

    /// A node's vector.
    pub fn read_vector(&self, node_id: u32) -> (r: &[u32])
        requires
            self@.wf(),
            node_id < self@.header.node_capacity,
        ensures
            r@ == self@.vector_of(node_id),
    {
        let dims: usize = self.header.dimensions as usize;
        let len: usize = self.vectors.len();
        proof {
            slot_inside(node_id as int, dims as int, self.header.node_capacity as int);
        }
        let off: usize = node_id as usize * dims;
        &self.vectors[off..off + dims]
    }

    /// Write a vector.
    pub fn write_vector(&mut self, node_id: u32, vector: &[u32])
        requires
            old(self)@.wf(),
            node_id < old(self)@.header.node_capacity,
            vector@.len() == old(self)@.header.dimensions,
        ensures
            final(self)@ == with_vector(old(self)@, node_id, vector@),
            final(self)@.wf(),
            final(self)@.vector_of(node_id) == vector@,
            forall|n: u32|
                n != node_id && n < old(self)@.header.node_capacity ==> #[trigger] final(
                    self)@.vector_of(n) == old(self)@.vector_of(n),
            final(self).key() == old(self).key(),
    {
        let dims: usize = self.header.dimensions as usize;
        let len: usize = self.vectors.len();
        proof {
            slot_inside(node_id as int, dims as int, self.header.node_capacity as int);
        }
        let off: usize = node_id as usize * dims;
        let ghost before = self.vectors@;
        let mut i: usize = 0;
        while i < dims
            invariant
                i <= dims,
                dims == vector@.len(),
                dims == self.header.dimensions,
                off == node_id * dims,
                off + dims <= self.vectors@.len() == len,
                self.vectors@.len() == before.len(),
                before == old(self).vectors@,
                self.header == old(self).header,
                self.index@ == old(self).index@,
                self.graph@ == old(self).graph@,
                self.deleted@ == old(self).deleted@,
                self.cipher == old(self).cipher,
                forall|j: int|
                    0 <= j < before.len() ==> #[trigger] self.vectors@[j] == if off <= j < off + i {
                        vector@[j - off]
                    } else {
                        before[j]
                    },
            decreases dims - i,
        {
            self.vectors.set(off + i, vector[i]);
            i += 1;
        }
        proof {
            let f = old(self)@;
            let g = self@;
            assert(g =~= with_vector(f, node_id, vector@));
            assert(g.vector_of(node_id) =~= vector@);
            assert forall|n: u32| n != node_id && n < f.header.node_capacity implies #[trigger] g.vector_of(
            n) == f.vector_of(n) by {
                slot_inside(n as int, dims as int, f.header.node_capacity as int);
                slots_apart(n as int, node_id as int, dims as int);
                assert(g.vector_of(n) =~= f.vector_of(n));
            }
        }
    }

    pub fn is_deleted(&self, node_id: u32) -> (b: bool)
        requires
            self@.wf(),
            node_id < self@.header.node_capacity,
        ensures
            b == self@.is_gone(node_id),
    {
        self.deleted[node_id as usize] != 0
    }

    pub fn set_deleted(&mut self, node_id: u32, deleted: bool)
        requires
            old(self)@.wf(),
            node_id < old(self)@.header.node_capacity,
        ensures
            final(self)@ == (FileView {
                deleted: old(self)@.deleted.update(
                    node_id as int,
                    if deleted {
                        1
                    } else {
                        0
                    },
                ),
                ..old(self)@
            }),
            final(self)@.wf(),
            final(self).key() == old(self).key(),
    {
        let flag: u8 = if deleted {
            1
        } else {
            0
        };
        self.deleted.set(node_id as usize, flag);
    }

    /// The graph record offset of a node. `None` if it has no record.
    pub fn graph_record_offset(&self, node_id: u32) -> (r: Option<u64>)
        requires
            self@.wf(),
            node_id < self@.header.node_capacity,
        ensures
            r == (if self@.index[node_id as int] == NONE_U64 {
                None
            } else {
                Some(self@.index[node_id as int])
            }),
    {
        let v: u64 = self.index[node_id as usize];
        if v == NONE_U64 {
            None
        } else {
            Some(v)
        }
    }

    fn locate(&self, node_id: u32) -> (r: Option<usize>)
        requires
            self@.wf(),
            node_id < self@.header.node_capacity,
        ensures
            r is Some <==> self@.record_of(node_id) is Some,
            r matches Some(o) ==> self@.record_of(node_id) == Some(o as int),
    {
        let v: u64 = match self.graph_record_offset(node_id) {
            Some(v) => v,
            None => {
                return None;
            },
        };
        let len: usize = self.graph.len();
        let used: u64 = self.header.graph_data_len / 4;
        if v % 4 != 0 || v / 4 >= used {
            return None;
        }
        let o: usize = (v / 4) as usize;
        let size: u128 = record_size(self.graph[o], self.header.m);
        if o as u128 + size > used as u128 {
            return None;
        }
        Some(o)
    }

    /// The number of the highest layer of a node.
    pub fn read_node_max_layer(&self, node_id: u32) -> (r: Option<u32>)
        requires
            self@.wf(),
            node_id < self@.header.node_capacity,
        ensures
            r == (match self@.record_of(node_id) {
                Some(o) => Some(self@.graph[o]),
                None => None,
            }),
    {
        match self.locate(node_id) {
            Some(o) => Some(self.graph[o]),
            None => None,
        }
    }

    /// Read the neighbor list of a node at a layer.
    pub fn read_neighbors(&self, node_id: u32, layer: u32) -> (r: Vec<u32>)
        requires
            self@.wf(),
            node_id < self@.header.node_capacity,
        ensures
            r@ == self@.neighbors_of(node_id, layer),
    {
        let mut out: Vec<u32> = Vec::new();
        let o: usize = match self.locate(node_id) {
            Some(o) => o,
            None => {
                return out;
            },
        };
        let top: u32 = self.graph[o];
        if layer > top {
            return out;
        }
        let m: u32 = self.header.m;
        let len: usize = self.graph.len();
        proof {
            layers_follow(layer as int, top + 1, m);
        }
        let at: usize = o + layer_word(layer, m) as usize;
        let cap: usize = if layer == 0 {
            2 * (m as usize)
        } else {
            m as usize
        };
        let count: usize = self.graph[at] as usize;
        let n: usize = if count <= cap {
            count
        } else {
            cap
        };
        let ghost part = self.graph@.subrange(at + 1, at + 1 + n);
        assert(part.take(0) =~= Seq::empty());
        let mut i: usize = 0;
        while i < n
            invariant
                i <= n,
                at + 1 + n <= self.graph@.len() == len,
                part == self.graph@.subrange(at + 1, at + 1 + n),
                out@ == present(part.take(i as int)),
            decreases n - i,
        {
            let nb: u32 = self.graph[at + 1 + i];
            proof {
                assert(part.take(i + 1).drop_last() =~= part.take(i as int));
                assert(part.take(i + 1).last() == nb);
            }
            if nb != NONE_U32 {
                out.push(nb);
            }
            i += 1;
        }
        assert(part.take(n as int) =~= part);
        out
    }

    /// Write the neighbor list of a node at a layer, and clear the places that are
    /// not taken. Without a record, or beyond the layers of the record, nothing is
    /// written.
    pub fn write_neighbors(&mut self, node_id: u32, layer: u32, neighbors: &Vec<u32>)
        requires
            old(self)@.wf(),
            node_id < old(self)@.header.node_capacity,
            neighbors@.len() <= u32::MAX,
        ensures
            final(self)@ == with_neighbors(old(self)@, node_id, layer, neighbors@),
            final(self)@.wf(),
            final(self).key() == old(self).key(),
    {
        let o: usize = match self.locate(node_id) {
            Some(o) => o,
            None => {
                return ;
            },
        };
        let top: u32 = self.graph[o];
        if layer > top {
            return ;
        }
        let m: u32 = self.header.m;
        let len: usize = self.graph.len();
        proof {
            layers_follow(layer as int, top + 1, m);
        }
        let at: usize = o + layer_word(layer, m) as usize;
        let cap: usize = if layer == 0 {
            2 * (m as usize)
        } else {
            m as usize
        };
        let ghost before = self.graph@;
        let ghost after = with_list(before, at as int, cap as int, neighbors@);
        self.graph.set(at, neighbors.len() as u32);
        let mut i: usize = 0;
        while i < cap
            invariant
                i <= cap,
                at + 1 + cap <= len,
                len == self.graph@.len() == before.len(),
                before == old(self).graph@,
                after == with_list(before, at as int, cap as int, neighbors@),
                self.header == old(self).header,
                self.index@ == old(self).index@,
                self.vectors@ == old(self).vectors@,
                self.deleted@ == old(self).deleted@,
                self.cipher == old(self).cipher,
                forall|j: int|
                    0 <= j < before.len() ==> #[trigger] self.graph@[j] == if at <= j <= at + i {
                        after[j]
                    } else {
                        before[j]
                    },
            decreases cap - i,
        {
            let v: u32 = if i < neighbors.len() {
                neighbors[i]
            } else {
                NONE_U32
            };
            self.graph.set(at + 1 + i, v);
            i += 1;
        }
        assert(self.graph@ =~= after);
    }

    /// Append a graph record with the given number of its highest layer.
    pub fn allocate_graph_record(&mut self, node_id: u32, max_layer: u32) -> (r: Result<()>)
        requires
            old(self)@.wf(),
            node_id < old(self)@.header.node_capacity,
        ensures
            final(self).key() == old(self).key(),
            r is Ok <==> has_room(old(self)@, max_layer),
            r is Ok ==> final(self)@ == with_record(old(self)@, node_id, max_layer),
            r matches Err(e) ==> e is VectorError && final(self)@ == old(self)@,
    {
        let m: u32 = self.header.m;
        let len: usize = self.graph.len();
        let start: u64 = self.header.graph_data_len;
        let size: u128 = record_size(max_layer, m);
        if (start / 4) as u128 + size > len as u128 {
            return Err(BoogyError::VectorError(owned("vec file: graph data area is full")));
        }
        let o: usize = (start / 4) as usize;
        let n: usize = size as usize;
        let ghost before = self.graph@;
        let mut i: usize = 0;
        while i < n
            invariant
                i <= n,
                o + n <= len,
                len == self.graph@.len() == before.len(),
                self.header == old(self).header,
                self.index@ == old(self).index@,
                self.vectors@ == old(self).vectors@,
                self.deleted@ == old(self).deleted@,
                self.cipher == old(self).cipher,
                forall|j: int|
                    0 <= j < before.len() && (j < o || j >= o + i) ==> #[trigger] self.graph@[j]
                        == before[j],
                forall|j: int| o <= j < o + i ==> #[trigger] self.graph@[j] == NONE_U32,
            decreases n - i,
        {
            self.graph.set(o + i, NONE_U32);
            i += 1;
        }
        proof {
            layers_follow(0, max_layer + 1, m);
        }
        self.graph.set(o, max_layer);
        let mut left: u64 = max_layer as u64 + 1;
        while left > 0
            invariant
                left <= max_layer + 1,
                0 < n == record_words(max_layer, m),
                o + n <= len,
                len == self.graph@.len() == before.len(),
                self.header == old(self).header,
                self.index@ == old(self).index@,
                self.vectors@ == old(self).vectors@,
                self.deleted@ == old(self).deleted@,
                self.cipher == old(self).cipher,
                self.graph@[o as int] == max_layer,
                forall|j: int|
                    o < j < o + n ==> #[trigger] self.graph@[j] == if counts(
                        j - o,
                        left as int,
                        max_layer,
                        m,
                    ) {
                        0
                    } else {
                        NONE_U32
                    },
                forall|j: int|
                    0 <= j < before.len() && (j < o || j >= o + n) ==> #[trigger] self.graph@[j]
                        == before[j],
            decreases left,
        {
            let layer: u32 = (left - 1) as u32;
            proof {
                layers_follow(layer as int, max_layer + 1, m);
            }
            let at: usize = o + layer_word(layer, m) as usize;
            self.graph.set(at, 0);
            proof {
                assert forall|k: int| #[trigger] counts(k, left - 1, max_layer, m) <==> counts(
                    k,
                    left as int,
                    max_layer,
                    m,
                ) || k == at - o by {
                    if counts(k, left as int, max_layer, m) {
                        let l = choose|l: int|
                            left <= l <= max_layer && #[trigger] layer_at(l, m) == k;
                        assert(layer_at(l, m) == k);
                    }
                    if k == at - o {
                        assert(layer_at(layer as int, m) == k);
                    }
                }
            }
            left -= 1;
        }
        self.index.set(node_id as usize, start);
        assert(start + 4 * n <= 4 * self.graph@.len());
        assert(0 <= 4 * (self.header.node_capacity * self.header.dimensions)) by (nonlinear_arith)
            requires
                0 <= self.header.node_capacity,
                0 <= self.header.dimensions,
        ;
        self.header.graph_data_len = start + 4 * n as u64;
        assert(self.graph@ =~= with_record(old(self)@, node_id, max_layer).graph);
        Ok(())
    }

    /// Double the capacity.
    pub fn grow(&mut self) -> (r: Result<()>)
        requires
            old(self)@.wf(),
        ensures
            final(self).key() == old(self).key(),
            r is Ok <==> can_double(old(self)@),
            r is Ok ==> final(self)@ == doubled(old(self)@) && final(self)@.wf(),
            r matches Err(e) ==> e is VectorError && final(self)@ == old(self)@,
    {
        let h = self.header;
        if h.node_capacity == 0 || h.node_capacity > 0x7FFF_FFFF {
            return Err(BoogyError::VectorError(owned("vec file: cannot grow")));
        }
        let capacity: u32 = 2 * h.node_capacity;
        let (a, g) = match sizes(capacity, h.dimensions, h.m) {
            Some(p) => p,
            None => {
                return Err(BoogyError::VectorError(owned("vec file: cannot grow")));
            },
        };
        proof {
            grown_sizes(h.node_capacity as int, h.dimensions as int);
            grown_sizes(h.node_capacity as int, words_per_node(h.m));
            assert(words_per_node(h.m) * capacity == capacity * words_per_node(h.m))
                by (nonlinear_arith);
            assert(words_per_node(h.m) * h.node_capacity == h.node_capacity * words_per_node(h.m))
                by (nonlinear_arith);
        }
        let ghost before = self@;
        self.vectors.resize(a, 0u32);
        self.index.resize(capacity as usize, NONE_U64);
        self.graph.resize(g, 0u32);
        self.deleted.resize(capacity as usize, 0u8);
        self.header.node_capacity = capacity;
        proof {
            let d = doubled(before);
            same_start(self.vectors@, before.vectors);
            same_start(self.index@, before.index);
            same_start(self.graph@, before.graph);
            same_start(self.deleted@, before.deleted);
            assert(self@.vectors =~= d.vectors);
            assert(self@.index =~= d.index);
            assert(self@.graph =~= d.graph);
            assert(self@.deleted =~= d.deleted);
        }
        Ok(())
    }

    /// Allocate a node: reuse a free one if there is one, else take the next
    /// number; grow if there is no room.
    pub fn allocate_node(&mut self) -> (r: Result<u32>)
        requires
            old(self)@.wf(),
        ensures
            final(self).key() == old(self).key(),
            r is Ok <==> can_allocate(old(self)@),
            r matches Ok(n) ==> {
                &&& final(self)@ == with_node(old(self)@)
                &&& final(self)@.wf()
                &&& n < final(self)@.header.node_capacity
                &&& n == match old(self)@.header.free_list_head {
                    Some(head) => head,
                    None => old(self)@.header.node_count,
                }
            },
            r matches Err(e) ==> (e is VectorError || e is Corruption) && final(self)@ == old(
                self,
            )@,
    {
        match self.header.free_list_head {
            Some(head) => {
                if head >= self.header.node_capacity || self.header.free_list_len == 0
                    || self.header.dimensions == 0 {
                    return Err(BoogyError::Corruption(owned("vec file: bad free list")));
                }
                let dims: usize = self.header.dimensions as usize;
                let len: usize = self.vectors.len();
                proof {
                    slot_inside(head as int, dims as int, self.header.node_capacity as int);
                }
                let next: u32 = self.vectors[head as usize * dims];
                self.header.free_list_head = none_if(next);
                self.header.free_list_len = self.header.free_list_len - 1;
                self.set_deleted(head, false);
                self.index.set(head as usize, NONE_U64);
                Ok(head)
            },
            None => {
                if self.header.node_count >= self.header.node_capacity {
                    self.grow()?;
                }
                let id: u32 = self.header.node_count;
                self.header.node_count = id + 1;
                Ok(id)
            },
        }
    }

    /// Free a node: mark it deleted and put it in front of the free list.
    pub fn free_node(&mut self, node_id: u32)
        requires
            old(self)@.wf(),
            node_id < old(self)@.header.node_capacity,
            old(self)@.header.dimensions > 0,
            old(self)@.header.free_list_len < u32::MAX,
        ensures
            final(self)@ == without_node(old(self)@, node_id),
            final(self)@.wf(),
            final(self).key() == old(self).key(),
    {
        let dims: usize = self.header.dimensions as usize;
        let len: usize = self.vectors.len();
        proof {
            slot_inside(node_id as int, dims as int, self.header.node_capacity as int);
        }
        let head: u32 = match self.header.free_list_head {
            Some(h) => h,
            None => NONE_U32,
        };
        self.vectors.set(node_id as usize * dims, head);
        self.set_deleted(node_id, true);
        self.header.free_list_head = Some(node_id);
        self.header.free_list_len = self.header.free_list_len + 1;
    }
}

proof fn grown_sizes(c: int, x: int)
    by (nonlinear_arith)
    requires
        c >= 0,
        x >= 0,
    ensures
        (2 * c) * x == c * x + c * x,
        c * x >= 0,
{
}

proof fn same_start<T>(a: Seq<T>, b: Seq<T>)
    requires
        a.len() >= b.len(),
        a.len() > b.len() ==> a.subrange(0, b.len() as int) == b,
        a.len() == b.len() ==> a == b.subrange(0, a.len() as int),
    ensures
        forall|i: int| 0 <= i < b.len() ==> #[trigger] a[i] == b[i],
{
    if a.subrange(0, b.len() as int) == b {
        assert forall|i: int| 0 <= i < b.len() implies #[trigger] a[i] == b[i] by {
            assert(a.subrange(0, b.len() as int)[i] == b[i]);
        }
    }
}

/// Neighbors that were written are read back; what is stored for other nodes and
/// other layers stays.
pub proof fn neighbors_read_back(f: FileView, node: u32, layer: u32, list: Seq<u32>)
    requires
        f.wf(),
        f.apart(),
        node < f.header.node_capacity,
        f.record_of(node) is Some,
        layer <= f.graph[f.record_of(node)->0],
        list.len() <= u32::MAX,
    ensures
        ({
            let g = with_neighbors(f, node, layer, list);
            let cap = layer_cap(layer as int, f.header.m);
            &&& g.wf()
            &&& g.apart()
            &&& g.neighbors_of(node, layer) == present(list.take(min_of(list.len() as int, cap)))
            &&& forall|n: u32|
                n < f.header.node_capacity ==> #[trigger] g.record_of(n) == f.record_of(n)
            &&& forall|n: u32, l: u32|
                n < f.header.node_capacity && (n != node || l != layer)
                    ==> #[trigger] g.neighbors_of(n, l) == f.neighbors_of(n, l)
        }),
{
    let g = with_neighbors(f, node, layer, list);
    let m = f.header.m;
    let o = f.record_of(node)->0;
    let top = f.graph[o];
    let cap = layer_cap(layer as int, m);
    let at = o + layer_at(layer as int, m);
    layers_follow(layer as int, top + 1, m);
    assert forall|n: u32| n < f.header.node_capacity implies #[trigger] g.record_of(n)
        == f.record_of(n) && (f.record_of(n) matches Some(x) ==> g.graph[x] == f.graph[x] && (n
        != node ==> x + record_words(f.graph[x], m) <= at || at + cap < x)) by {
        let v = f.index[n as int];
        let x = v as int / 4;
        assert(f.records_apart(n, node) || n == node);
        assert(f.recorded(n));
        if f.record_of(n) is Some {
            layers_follow(0, f.graph[x] + 1, m);
        }
    }
    assert forall|a: u32| a < g.header.node_capacity implies #[trigger] g.recorded(a) by {
        assert(f.recorded(a));
        assert(g.record_of(a) == f.record_of(a));
    }
    assert forall|a: u32, b: u32|
        a != b && a < g.header.node_capacity && b < g.header.node_capacity implies #[trigger] g.records_apart(
    a, b) by {
        assert(f.records_apart(a, b));
        assert(g.record_of(a) == f.record_of(a));
        assert(g.record_of(b) == f.record_of(b));
    }
    assert(g.record_of(node) == f.record_of(node));
    let k = min_of(list.len() as int, cap);
    assert(g.graph.subrange(at + 1, at + 1 + k) =~= list.take(k));
    assert forall|n: u32, l: u32|
        n < f.header.node_capacity && (n != node || l != layer) implies #[trigger] g.neighbors_of(
        n,
        l,
    ) == f.neighbors_of(n, l) by {
        assert(g.record_of(n) == f.record_of(n));
        if f.record_of(n) is Some {
            let x = f.record_of(n)->0;
            if l <= f.graph[x] {
                let c = layer_cap(l as int, m);
                let p = x + layer_at(l as int, m);
                layers_follow(l as int, f.graph[x] + 1, m);
                if n == node {
                    if l < layer {
                        layers_follow(l as int, layer as int, m);
                    } else {
                        layers_follow(layer as int, l as int, m);
                    }
                }
                let e = min_of(f.graph[p] as int, c);
                assert(g.graph[p] == f.graph[p]);
                assert(g.graph.subrange(p + 1, p + 1 + e) =~= f.graph.subrange(p + 1, p + 1 + e));
            }
        }
    }
}

/// A new record has no neighbors; what is stored for other nodes stays.
pub proof fn record_is_new(f: FileView, node: u32, max_layer: u32)
    requires
        f.wf(),
        f.apart(),
        node < f.header.node_capacity,
        has_room(f, max_layer),
    ensures
        ({
            let g = with_record(f, node, max_layer);
            &&& g.wf()
            &&& g.apart()
            &&& g.record_of(node) == Some(f.used())
            &&& g.graph[f.used()] == max_layer
            &&& forall|l: u32| #[trigger] g.neighbors_of(node, l) == Seq::<u32>::empty()
            &&& forall|n: u32|
                n != node && n < f.header.node_capacity ==> #[trigger] g.record_of(n)
                    == f.record_of(n)
            &&& forall|n: u32, l: u32|
                n != node && n < f.header.node_capacity ==> #[trigger] g.neighbors_of(n, l)
                    == f.neighbors_of(n, l)
        }),
{
    let g = with_record(f, node, max_layer);
    let m = f.header.m;
    let o = f.used();
    let w = record_words(max_layer, m);
    layers_follow(0, max_layer + 1, m);
    size_fits(f);
    assert(g.header.graph_data_len == f.header.graph_data_len + 4 * w);
    assert(g.used() == o + w);
    assert(g.index[node as int] == f.header.graph_data_len);
    assert(g.record_of(node) == Some(o));
    assert forall|n: u32| n != node && n < f.header.node_capacity implies #[trigger] g.record_of(n)
        == f.record_of(n) && (f.record_of(n) matches Some(x) ==> g.graph[x] == f.graph[x] && x
        + record_words(f.graph[x], m) <= o) by {
        assert(f.recorded(n));
        if f.record_of(n) is Some {
            let x = f.record_of(n)->0;
            layers_follow(0, f.graph[x] + 1, m);
        }
    }
    assert forall|a: u32| a < g.header.node_capacity implies #[trigger] g.recorded(a) by {
        assert(f.recorded(a));
        if a != node {
            assert(g.record_of(a) == f.record_of(a));
        }
    }
    assert forall|a: u32, b: u32|
        a != b && a < g.header.node_capacity && b < g.header.node_capacity implies #[trigger] g.records_apart(
    a, b) by {
        assert(f.records_apart(a, b));
        if a != node {
            assert(g.record_of(a) == f.record_of(a));
        }
        if b != node {
            assert(g.record_of(b) == f.record_of(b));
        }
    }
    assert forall|l: u32| #[trigger] g.neighbors_of(node, l) == Seq::<u32>::empty() by {
        if l <= max_layer {
            let at = o + layer_at(l as int, m);
            layers_follow(l as int, max_layer + 1, m);
            assert(counts(at - o, 0, max_layer, m));
            assert(g.graph[at] == 0);
            assert(g.graph.subrange(at + 1, at + 1) =~= Seq::<u32>::empty());
        }
    }
    assert forall|n: u32, l: u32| n != node && n < f.header.node_capacity implies #[trigger] g.neighbors_of(
    n, l) == f.neighbors_of(n, l) by {
        assert(g.record_of(n) == f.record_of(n));
        if f.record_of(n) is Some {
            let x = f.record_of(n)->0;
            if l <= f.graph[x] {
                let c = layer_cap(l as int, m);
                let p = x + layer_at(l as int, m);
                layers_follow(l as int, f.graph[x] + 1, m);
                let e = min_of(f.graph[p] as int, c);
                assert(g.graph.subrange(p + 1, p + 1 + e) =~= f.graph.subrange(p + 1, p + 1 + e));
            }
        }
    }
}

/// The graph data can be addressed by bytes.
pub proof fn size_fits(f: FileView)
    requires
        f.wf(),
    ensures
        4 * f.graph.len() <= u64::MAX,
{
    assert(0 <= f.header.node_capacity * f.header.dimensions) by (nonlinear_arith)
        requires
            0 <= f.header.node_capacity,
            0 <= f.header.dimensions,
    ;
}

/// A freed node is the next to be used again; the vectors of other nodes stay.
pub proof fn freed_is_next(f: FileView, node: u32, chain: Seq<u32>)
    requires
        f.wf(),
        f.header.dimensions > 0,
        f.header.free_list_len < u32::MAX,
        node < f.header.node_count,
        f.free_chain(chain),
        !chain.contains(node),
    ensures
        without_node(f, node).wf(),
        without_node(f, node).free_chain(seq![node] + chain),
        without_node(f, node).is_gone(node),
        f.apart() ==> without_node(f, node).apart(),
        forall|n: u32|
            n != node && n < f.header.node_capacity ==> #[trigger] without_node(f, node).vector_of(n)
                == f.vector_of(n) && without_node(f, node).is_gone(n) == f.is_gone(n),
        forall|n: u32, l: u32|
            #[trigger] without_node(f, node).neighbors_of(n, l) == f.neighbors_of(n, l),
{
    let g = without_node(f, node);
    let dims = f.header.dimensions;
    let all = seq![node] + chain;
    slot_inside(node as int, dims as int, f.header.node_capacity as int);
    assert forall|i: int| 0 <= i < all.len() implies g.chained(
        #[trigger] all[i],
        if i + 1 < all.len() {
            all[i + 1]
        } else {
            NONE_U32
        },
    ) by {
        if i > 0 {
            let n = chain[i - 1];
            assert(all[i] == n);
            assert(f.chained(
                n,
                if i < chain.len() {
                    chain[i]
                } else {
                    NONE_U32
                },
            ));
            slot_inside(n as int, dims as int, f.header.node_capacity as int);
            slots_apart(n as int, node as int, dims as int);
        }
    }
    assert(all.no_duplicates());
    assert forall|n: u32| n != node && n < f.header.node_capacity implies #[trigger] g.vector_of(n)
        == f.vector_of(n) && g.is_gone(n) == f.is_gone(n) by {
        slot_inside(n as int, dims as int, f.header.node_capacity as int);
        slots_apart(n as int, node as int, dims as int);
        assert(g.vector_of(n) =~= f.vector_of(n));
    }
    same_records(f, g);
}

/// Records stay with the index and the graph data.
proof fn same_records(f: FileView, g: FileView)
    requires
        g.index == f.index,
        g.graph == f.graph,
        g.header.m == f.header.m,
        g.header.graph_data_len == f.header.graph_data_len,
        g.header.node_capacity == f.header.node_capacity,
    ensures
        f.apart() ==> g.apart(),
        forall|n: u32| #[trigger] g.record_of(n) == f.record_of(n),
        forall|n: u32, l: u32| #[trigger] g.neighbors_of(n, l) == f.neighbors_of(n, l),
{
    if f.apart() {
        assert forall|a: u32| a < g.header.node_capacity implies #[trigger] g.recorded(a) by {
            assert(f.recorded(a));
        }
        assert forall|a: u32, b: u32|
            a != b && a < g.header.node_capacity && b < g.header.node_capacity implies #[trigger] g.records_apart(
        a, b) by {
            assert(f.records_apart(a, b));
        }
    }
}

/// An allocated node is the first of the free ones, or a new one; it is not
/// deleted, has no record, and no other node changes.
pub proof fn allocated_is_free(f: FileView, chain: Seq<u32>)
    requires
        f.wf(),
        f.apart(),
        f.free_chain(chain),
        can_allocate(f),
        forall|n: u32|
            f.header.node_count <= n < f.header.node_capacity ==> !f.is_gone(n)
                && #[trigger] f.index[n as int] == NONE_U64,
    ensures
        ({
            let g = with_node(f);
            let node = if chain.len() > 0 {
                chain[0]
            } else {
                f.header.node_count
            };
            &&& g.wf()
            &&& g.apart()
            &&& g.free_chain(
                if chain.len() > 0 {
                    chain.skip(1)
                } else {
                    chain
                },
            )
            &&& !g.is_gone(node)
            &&& g.record_of(node) is None
            &&& forall|n: u32|
                n != node && n < f.header.node_capacity ==> #[trigger] g.vector_of(n) == f.vector_of(n)
                    && g.is_gone(n) == f.is_gone(n)
            &&& forall|n: u32, l: u32|
                n != node && n < f.header.node_capacity ==> #[trigger] g.neighbors_of(n, l)
                    == f.neighbors_of(n, l)
        }),
{
    let g = with_node(f);
    let dims = f.header.dimensions;
    if chain.len() > 0 {
        let node = chain[0];
        let rest = chain.skip(1);
        assert(f.chained(
            node,
            if 1 < chain.len() {
                chain[1]
            } else {
                NONE_U32
            },
        ));
        assert(rest.no_duplicates());
        if 1 < chain.len() {
            assert(f.chained(
                chain[1],
                if 2 < chain.len() {
                    chain[2]
                } else {
                    NONE_U32
                },
            ));
        }
        assert forall|i: int| 0 <= i < rest.len() implies g.chained(
            #[trigger] rest[i],
            if i + 1 < rest.len() {
                rest[i + 1]
            } else {
                NONE_U32
            },
        ) by {
            assert(rest[i] == chain[i + 1]);
            assert(f.chained(
                chain[i + 1],
                if i + 2 < chain.len() {
                    chain[i + 2]
                } else {
                    NONE_U32
                },
            ));
        }
        index_cleared(f, g, node);
    } else {
        let h = if f.header.node_count >= f.header.node_capacity {
            doubled(f)
        } else {
            f
        };
        if f.header.node_count >= f.header.node_capacity {
            doubling_keeps(f);
        }
        same_records(h, g);
        assert forall|n: u32| n < f.header.node_capacity implies #[trigger] g.vector_of(n)
            == f.vector_of(n) && g.is_gone(n) == f.is_gone(n) by {
            assert(h.vector_of(n) == f.vector_of(n));
        }
    }
}

proof fn index_cleared(f: FileView, g: FileView, node: u32)
    requires
        f.wf(),
        f.apart(),
        node < f.header.node_capacity,
        g.index == f.index.update(node as int, NONE_U64),
        g.graph == f.graph,
        g.header.m == f.header.m,
        g.header.graph_data_len == f.header.graph_data_len,
        g.header.node_capacity == f.header.node_capacity,
    ensures
        g.apart(),
        g.record_of(node) is None,
        forall|n: u32, l: u32|
            n != node && n < f.header.node_capacity ==> #[trigger] g.neighbors_of(n, l)
                == f.neighbors_of(n, l),
{
    assert forall|a: u32| a < g.header.node_capacity implies #[trigger] g.recorded(a) by {
        assert(f.recorded(a));
    }
    assert forall|a: u32, b: u32|
        a != b && a < g.header.node_capacity && b < g.header.node_capacity implies #[trigger] g.records_apart(
    a, b) by {
        assert(f.records_apart(a, b));
    }
}

/// Growing keeps vectors, flags and records.
pub proof fn doubling_keeps(f: FileView)
    requires
        f.wf(),
        can_double(f),
    ensures
        doubled(f).wf(),
        f.apart() ==> doubled(f).apart(),
        forall|n: u32|
            n < f.header.node_capacity ==> #[trigger] doubled(f).vector_of(n) == f.vector_of(n)
                && doubled(f).is_gone(n) == f.is_gone(n),
        forall|n: u32|
            n < f.header.node_capacity ==> #[trigger] doubled(f).record_of(n) == f.record_of(n),
        forall|n: u32, l: u32|
            n < f.header.node_capacity ==> #[trigger] doubled(f).neighbors_of(n, l)
                == f.neighbors_of(n, l),
        forall|chain: Seq<u32>| #[trigger] f.free_chain(chain) && f.header.dimensions > 0
            ==> doubled(f).free_chain(chain),
{
    let g = doubled(f);
    let h = f.header;
    let m = h.m;
    grown_sizes(h.node_capacity as int, h.dimensions as int);
    grown_sizes(h.node_capacity as int, words_per_node(m));
    assert(words_per_node(m) * g.header.node_capacity == g.header.node_capacity * words_per_node(m))
        by (nonlinear_arith);
    assert(words_per_node(m) * h.node_capacity == h.node_capacity * words_per_node(m))
        by (nonlinear_arith);
    assert forall|n: u32| n < h.node_capacity implies #[trigger] g.vector_of(n) == f.vector_of(n)
        && g.is_gone(n) == f.is_gone(n) by {
        slot_inside(n as int, h.dimensions as int, h.node_capacity as int);
        assert(g.vector_of(n) =~= f.vector_of(n));
    }
    assert forall|n: u32, l: u32| n < h.node_capacity implies #[trigger] g.neighbors_of(n, l)
        == f.neighbors_of(n, l) by {
        assert(g.record_of(n) == f.record_of(n));
        if f.record_of(n) is Some {
            let x = f.record_of(n)->0;
            if l <= f.graph[x] {
                let c = layer_cap(l as int, m);
                let p = x + layer_at(l as int, m);
                layers_follow(l as int, f.graph[x] + 1, m);
                let e = min_of(f.graph[p] as int, c);
                assert(g.graph.subrange(p + 1, p + 1 + e) =~= f.graph.subrange(p + 1, p + 1 + e));
            }
        }
    }
    if f.apart() {
        assert forall|a: u32| a < g.header.node_capacity implies #[trigger] g.recorded(a) by {
            if a < h.node_capacity {
                assert(f.recorded(a));
                assert(g.record_of(a) == f.record_of(a));
            }
        }
        assert forall|a: u32, b: u32|
            a != b && a < g.header.node_capacity && b < g.header.node_capacity implies #[trigger] g.records_apart(
        a, b) by {
            assert(g.recorded(a) && g.recorded(b));
            if a < h.node_capacity && b < h.node_capacity {
                assert(f.records_apart(a, b));
                assert(g.record_of(a) == f.record_of(a));
                assert(g.record_of(b) == f.record_of(b));
            }
        }
    }
    assert forall|chain: Seq<u32>| #[trigger] f.free_chain(chain) && h.dimensions > 0 implies g.free_chain(
    chain) by {
        assert forall|i: int| 0 <= i < chain.len() implies g.chained(
            #[trigger] chain[i],
            if i + 1 < chain.len() {
                chain[i + 1]
            } else {
                NONE_U32
            },
        ) by {
            slot_inside(chain[i] as int, h.dimensions as int, h.node_capacity as int);
        }
    }
}

/// Long numbers one after the other, least significant byte first.
pub open spec fn longs(s: Seq<u64>) -> Seq<u8> {
    Seq::new(8 * s.len(), |i: int| bytes::le64(s[i / 8])[i % 8])
}

/// Long numbers at a place.
pub open spec fn longs_at(d: Seq<u8>, at: int, n: int) -> Seq<u64> {
    Seq::new(n as nat, |i: int| bytes::get_u64(d, at + 8 * i))
}

proof fn longs_read(d: Seq<u8>, at: int, s: Seq<u64>)
    requires
        0 <= at,
        at + 8 * s.len() <= d.len(),
        d.subrange(at, at + 8 * s.len()) == longs(s),
    ensures
        longs_at(d, at, s.len() as int) == s,
{
    assert forall|j: int| 0 <= j < s.len() implies bytes::get_u64(d, at + 8 * j) == s[j] by {
        let w = longs(s);
        bytes::le64_round_trip(s[j]);
        assert forall|k: int| 0 <= k < 8 implies #[trigger] d[at + 8 * j + k] == bytes::le64(
            s[j],
        )[0 + k] by {
            assert(w[8 * j + k] == d[at + (8 * j + k)]);
            assert((8 * j + k) / 8 == j && (8 * j + k) % 8 == k) by (nonlinear_arith)
                requires
                    0 <= k < 8,
            ;
        }
        bytes::get_agree(d, at + 8 * j, bytes::le64(s[j]), 0, 8);
    }
    assert(longs_at(d, at, s.len() as int) =~= s);
}

fn append_longs(buf: &mut Vec<u8>, list: &Vec<u64>)
    ensures
        final(buf)@ == old(buf)@ + longs(list@),
{
    let ghost start = buf@;
    let n: usize = list.len();
    let mut i: usize = 0;
    assert(longs(list@.take(0)) =~= Seq::empty());
    while i < n
        invariant
            i <= n,
            n == list@.len(),
            buf@ == start + longs(list@.take(i as int)),
        decreases n - i,
    {
        let b = bytes_u64(list[i]);
        append(buf, b.as_slice());
        proof {
            bytes::le64_round_trip(list@[i as int]);
            let a = list@.take(i as int);
            let c = list@.take(i + 1);
            assert(longs(c) =~= longs(a) + bytes::le64(list@[i as int])) by {
                assert forall|j: int| 0 <= j < longs(c).len() implies longs(c)[j] == (longs(a)
                    + bytes::le64(list@[i as int]))[j] by {
                    if j < 8 * i {
                        assert(j / 8 < i);
                    } else {
                        assert(j / 8 == i && j % 8 == j - 8 * i);
                    }
                }
            }
        }
        i += 1;
    }
    assert(list@.take(n as int) =~= list@);
}

fn read_longs(data: &[u8], at: usize, n: usize) -> (v: Vec<u64>)
    requires
        at + 8 * n <= data@.len(),
    ensures
        v@ == longs_at(data@, at as int, n as int),
{
    let mut v: Vec<u64> = Vec::new();
    let mut i: usize = 0;
    let len: usize = data.len();
    while i < n
        invariant
            i <= n,
            at + 8 * n <= len == data@.len(),
            v@ == longs_at(data@, at as int, i as int),
        decreases n - i,
    {
        let w: u64 = read_u64(data, at + 8 * i);
        v.push(w);
        assert(v@ =~= longs_at(data@, at as int, i + 1));
        i += 1;
    }
    v
}

/// The bytes start like a file without encryption.
pub open spec fn starts_plain(b: Seq<u8>) -> bool {
    b.len() >= 4 && b[0] == 0x42 && b[1] == 0x56 && b[2] == 0x45 && b[3] == 0x43
}

/// What the bytes of a file hold.
pub open spec fn reads_as(b: Seq<u8>, f: FileView) -> bool {
    let h = f.header;
    &&& starts_plain(b)
    &&& bytes::get_u32(b, 4) == VERSION
    &&& bytes::get_u32(b, 8) == h.dimensions
    &&& b[12] == types::metric_tag(h.metric)
    &&& bytes::get_u32(b, 13) == h.m
    &&& bytes::get_u32(b, 17) == h.ef_construction
    &&& bytes::get_u32(b, 21) == stored(h.entry_point)
    &&& bytes::get_u32(b, 25) == h.node_count
    &&& bytes::get_u32(b, 29) == h.max_layer
    &&& bytes::get_u32(b, 33) == h.node_capacity
    &&& bytes::get_u32(b, 37) == stored(h.free_list_head)
    &&& bytes::get_u32(b, 41) == h.free_list_len
    &&& bytes::get_u64(b, 45) == h.graph_data_len
    &&& wal::words_at(b, 4096, f.vectors.len() as int) == f.vectors
    &&& longs_at(b, node_index_offset(h.node_capacity, h.dimensions), f.index.len() as int)
        == f.index
    &&& wal::words_at(
        b,
        graph_data_offset(h.node_capacity, h.dimensions),
        f.graph.len() as int,
    ) == f.graph
    &&& b.subrange(
        deleted_flags_offset(h.node_capacity, h.dimensions, h.m),
        file_size(h.node_capacity, h.dimensions, h.m),
    ) == f.deleted
}

/// The bytes of a file.
pub open spec fn image_of(b: Seq<u8>, f: FileView) -> bool {
    &&& reads_as(b, f)
    &&& b.len() == file_size(f.header.node_capacity, f.header.dimensions, f.header.m)
    &&& forall|i: int| 53 <= i < 4096 ==> #[trigger] b[i] == 0
}

/// The bytes are those of a file, or start with them.
pub open spec fn valid_image(b: Seq<u8>) -> bool {
    let capacity = bytes::get_u32(b, 33);
    let dims = bytes::get_u32(b, 8);
    let m = bytes::get_u32(b, 13);
    let used = bytes::get_u64(b, 45);
    &&& starts_plain(b)
    &&& b.len() >= 4096
    &&& bytes::get_u32(b, 4) == VERSION
    &&& b[12] <= 2
    &&& file_size(capacity, dims, m) <= b.len()
    &&& bytes::get_u32(b, 25) <= capacity
    &&& used % 4 == 0
    &&& used / 4 <= words_per_node(m) * capacity
}

/// The header has no node under the number that stands for none.
pub open spec fn header_storable(h: VecFileHeader) -> bool {
    option_of(stored(h.entry_point)) == h.entry_point && option_of(stored(h.free_list_head))
        == h.free_list_head
}

/// The bytes of a file are valid, and what is read from them is the file.
pub proof fn image_read_back(b: Seq<u8>, f: FileView, g: FileView)
    requires
        f.wf(),
        header_storable(f.header),
        image_of(b, f),
    ensures
        valid_image(b),
        g.wf() && header_storable(g.header) && reads_as(b, g) ==> g == f,
{
    types::metric_tags_differ(f.header.metric, g.header.metric);
    assert(0 <= f.header.node_capacity * f.header.dimensions) by (nonlinear_arith)
        requires
            0 <= f.header.node_capacity,
            0 <= f.header.dimensions,
    ;
    assert(0 <= words_per_node(f.header.m) * f.header.node_capacity) by (nonlinear_arith)
        requires
            0 <= words_per_node(f.header.m),
            0 <= f.header.node_capacity,
    ;
    if g.wf() && header_storable(g.header) && reads_as(b, g) {
        assert(g.header == f.header);
        assert(g =~= f);
    }
}

fn put32(buf: &mut Vec<u8>, off: usize, v: u32)
    requires
        off + 4 <= old(buf)@.len(),
    ensures
        final(buf)@.len() == old(buf)@.len(),
        bytes::get_u32(final(buf)@, off as int) == v,
        forall|i: int|
            0 <= i < old(buf)@.len() && (i < off || i >= off + 4) ==> #[trigger] final(buf)@[i]
                == old(buf)@[i],
{
    let len: usize = buf.len();
    let b = bytes_u32(v);
    buf.set(off, b[0]);
    buf.set(off + 1, b[1]);
    buf.set(off + 2, b[2]);
    buf.set(off + 3, b[3]);
    proof {
        bytes::le32_round_trip(v);
        assert forall|k: int| 0 <= k < 4 implies #[trigger] buf@[off + k] == b@[0 + k] by {}
        bytes::get_agree(buf@, off as int, b@, 0, 4);
    }
}

fn put64(buf: &mut Vec<u8>, off: usize, v: u64)
    requires
        off + 8 <= old(buf)@.len(),
    ensures
        final(buf)@.len() == old(buf)@.len(),
        bytes::get_u64(final(buf)@, off as int) == v,
        forall|i: int|
            0 <= i < old(buf)@.len() && (i < off || i >= off + 8) ==> #[trigger] final(buf)@[i]
                == old(buf)@[i],
{
    let len: usize = buf.len();
    let low: u32 = (v % 0x1_0000_0000) as u32;
    let high: u32 = (v / 0x1_0000_0000) as u32;
    put32(buf, off, low);
    let ghost mid = buf@;
    put32(buf, off + 4, high);
    assert(bytes::get_u32(buf@, off as int) == bytes::get_u32(mid, off as int));
}

/// The bytes of the header.
fn header_image(h: &VecFileHeader) -> (b: Vec<u8>)
    ensures
        b@.len() == 4096,
        starts_plain(b@),
        bytes::get_u32(b@, 4) == VERSION,
        bytes::get_u32(b@, 8) == h.dimensions,
        b@[12] == types::metric_tag(h.metric),
        bytes::get_u32(b@, 13) == h.m,
        bytes::get_u32(b@, 17) == h.ef_construction,
        bytes::get_u32(b@, 21) == stored(h.entry_point),
        bytes::get_u32(b@, 25) == h.node_count,
        bytes::get_u32(b@, 29) == h.max_layer,
        bytes::get_u32(b@, 33) == h.node_capacity,
        bytes::get_u32(b@, 37) == stored(h.free_list_head),
        bytes::get_u32(b@, 41) == h.free_list_len,
        bytes::get_u64(b@, 45) == h.graph_data_len,
        forall|i: int| 53 <= i < 4096 ==> #[trigger] b@[i] == 0,
{
    let mut b: Vec<u8> = Vec::new();
    b.resize(HEADER_SIZE, 0u8);
    b.set(0, 0x42);
    b.set(1, 0x56);
    b.set(2, 0x45);
    b.set(3, 0x43);
    let entry: u32 = match h.entry_point {
        Some(x) => x,
        None => NONE_U32,
    };
    let free: u32 = match h.free_list_head {
        Some(x) => x,
        None => NONE_U32,
    };
    put32(&mut b, 4, VERSION);
    put32(&mut b, 8, h.dimensions);
    b.set(12, h.metric.to_tag());
    put32(&mut b, 13, h.m);
    put32(&mut b, 17, h.ef_construction);
    put32(&mut b, 21, entry);
    put32(&mut b, 25, h.node_count);
    put32(&mut b, 29, h.max_layer);
    put32(&mut b, 33, h.node_capacity);
    put32(&mut b, 37, free);
    put32(&mut b, 41, h.free_list_len);
    put64(&mut b, 45, h.graph_data_len);
    b
}

impl VecFile {
    fn image(&self) -> (b: Vec<u8>)
        requires
            self@.wf(),
        ensures
            image_of(b@, self@),
    {
        let mut b = header_image(&self.header);
        let ghost head = b@;
        append_words(&mut b, &self.vectors);
        append_longs(&mut b, &self.index);
        append_words(&mut b, &self.graph);
        append(&mut b, self.deleted.as_slice());
        proof {
            let h = self.header;
            let n = self.vectors@.len() as int;
            let k = self.index@.len() as int;
            let g = self.graph@.len() as int;
            let i0 = 4096 + 4 * n;
            let g0 = i0 + 8 * k;
            let d0 = g0 + 4 * g;
            assert(b@ =~= head + wal::words(self.vectors@) + longs(self.index@) + wal::words(
                self.graph@,
            ) + self.deleted@);
            assert(b@.subrange(4096, i0) =~= wal::words(self.vectors@));
            assert(b@.subrange(i0, g0) =~= longs(self.index@));
            assert(b@.subrange(g0, d0) =~= wal::words(self.graph@));
            assert(b@.subrange(d0, b@.len() as int) =~= self.deleted@);
            wal::words_read(b@, 4096, self.vectors@);
            longs_read(b@, i0, self.index@);
            wal::words_read(b@, g0, self.graph@);
            assert forall|off: int| 0 <= off <= 4092 implies #[trigger] bytes::get_u32(b@, off)
                == bytes::get_u32(head, off) by {
                bytes::get_agree(b@, off, head, off, 4);
            }
            bytes::get_agree(b@, 45, head, 45, 8);
        }
        b
    }

    /// The bytes that the file is to hold: the image of the header and the regions,
    /// encrypted if the file has a key.
    pub fn flush(&self) -> (r: Result<Vec<u8>>)
        requires
            self@.wf(),
        ensures
            r is Ok <==> self.key() is None || file_size(
                self@.header.node_capacity,
                self@.header.dimensions,
                self@.header.m,
            ) <= crypto::MAX_PLAINTEXT,
            r matches Ok(b) ==> match self.key() {
                None => image_of(b@, self@),
                Some(k) => crypto::opened(k, b@) matches Some(p) && image_of(p, self@),
            },
            r matches Err(e) ==> e is DecryptionFailed,
    {
        let plain = self.image();
        match &self.cipher {
            Some(c) => c.encrypt_bytes(plain.as_slice()),
            None => Ok(plain),
        }
    }
}

/// The plain bytes of a file, if they can be had.
pub open spec fn plain_bytes(raw: Seq<u8>, key: Option<Seq<u8>>) -> Option<Seq<u8>> {
    if starts_plain(raw) {
        Some(raw)
    } else {
        match key {
            Some(k) => crypto::opened(k, raw),
            None => None,
        }
    }
}

fn begins_plain(b: &[u8]) -> (r: bool)
    ensures
        r == starts_plain(b@),
{
    b.len() >= 4 && b[0] == 0x42 && b[1] == 0x56 && b[2] == 0x45 && b[3] == 0x43
}

fn bad_file<T>(what: &str) -> (r: Result<T>)
    ensures
        r matches Err(e) && e is Corruption,
{
    Err(BoogyError::Corruption(owned(what)))
}

impl VecFile {
    /// Open an existing vector file from its bytes.
    ///
    /// If they do not start like a plain file, they are encrypted and a key must be
    /// given.
    pub fn open(raw: &[u8], key: Option<&[u8; 32]>) -> (r: Result<VecFile>)
        ensures
            r is Ok <==> (plain_bytes(raw@, crypto_key(key)) matches Some(b) && valid_image(b)),
            r matches Ok(f) ==> {
                &&& reads_as(plain_bytes(raw@, crypto_key(key))->0, f@)
                &&& f@.wf()
                &&& header_storable(f@.header)
                &&& f.key() == crypto_key(key)
            },
            r matches Err(e) ==> if plain_bytes(raw@, crypto_key(key)) is None {
                e is DecryptionFailed
            } else {
                e is Corruption
            },
    {
        let cipher = match key {
            Some(k) => Some(Cipher::new(k)),
            None => None,
        };
        if begins_plain(raw) {
            Self::parse(raw, cipher)
        } else {
            let plain = match &cipher {
                Some(c) => c.decrypt_bytes(raw)?,
                None => {
                    return Err(
                        BoogyError::DecryptionFailed(
                            owned("vec file is encrypted but no key provided"),
                        ),
                    );
                },
            };
            Self::parse(plain.as_slice(), cipher)
        }
    }

    fn parse(b: &[u8], cipher: Option<Cipher>) -> (r: Result<VecFile>)
        ensures
            r is Ok <==> valid_image(b@),
            r matches Ok(f) ==> reads_as(b@, f@) && f@.wf() && header_storable(f@.header)
                && f.cipher == cipher,
            r matches Err(e) ==> e is Corruption,
    {
        let len: usize = b.len();
        if !begins_plain(b) {
            return bad_file("vec file: bad magic");
        }
        if len < HEADER_SIZE {
            return bad_file("vec file: too short");
        }
        if read_u32(b, 4) != VERSION {
            return bad_file("vec file: unsupported version");
        }
        let dimensions: u32 = read_u32(b, 8);
        let metric = match DistanceMetric::from_tag(b[12]) {
            Some(metric) => metric,
            None => {
                return bad_file("vec file: unknown metric tag");
            },
        };
        let m: u32 = read_u32(b, 13);
        let node_count: u32 = read_u32(b, 25);
        let node_capacity: u32 = read_u32(b, 33);
        let graph_data_len: u64 = read_u64(b, 45);
        let (a, g) = match sizes(node_capacity, dimensions, m) {
            Some(p) => p,
            None => {
                return bad_file("vec file: too short");
            },
        };
        let cap: usize = node_capacity as usize;
        assert(a >= 0 && g >= 0);
        let i0: usize = HEADER_SIZE + 4 * a;
        let g0: usize = i0 + 8 * cap;
        let d0: usize = g0 + 4 * g;
        let end: usize = d0 + cap;
        if end > len {
            return bad_file("vec file: too short");
        }
        if node_count > node_capacity {
            return bad_file("vec file: more nodes than room for them");
        }
        if graph_data_len % 4 != 0 || graph_data_len / 4 > g as u64 {
            return bad_file("vec file: bad length of the graph data");
        }
        let header = VecFileHeader {
            dimensions,
            metric,
            m,
            ef_construction: read_u32(b, 17),
            entry_point: none_if(read_u32(b, 21)),
            node_count,
            max_layer: read_u32(b, 29),
            node_capacity,
            free_list_head: none_if(read_u32(b, 37)),
            free_list_len: read_u32(b, 41),
            graph_data_len,
        };
        let vectors = read_words(b, HEADER_SIZE, a);
        let index = read_longs(b, i0, cap);
        let graph = read_words(b, g0, g);
        let deleted = bytes::copy_slice(&b[d0..end]);
        Ok(VecFile { header, vectors, index, graph, deleted, cipher })
    }
}

/// The bytes of a key.
pub open spec fn crypto_key(key: Option<&[u8; 32]>) -> Option<Seq<u8>> {
    match key {
        Some(k) => Some(k@),
        None => None,
    }
}

}
