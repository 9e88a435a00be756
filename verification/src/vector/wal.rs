//! The write-ahead log of a vector collection.
//!
//! Each entry is written as `[len: u32][payload]`. Transactions are committed
//! by appending a commit entry; on recovery only complete transactions count.

use crate::bytes;
use crate::bytes::{append, bytes_u32, read_u32};
use crate::crypto;
use crate::crypto::Cipher;
use crate::error::{owned, BoogyError, Result};
use crate::table;
use vstd::prelude::*;

verus! {

/// A single entry in the log. Components of vectors are the bits of their
/// values.
#[derive(Debug, PartialEq)]
pub enum WalEntry {
    InsertVector { node_id: u32, layer: u32, vector: Vec<u32> },
    SetNeighbors { node_id: u32, layer: u32, neighbors: Vec<u32> },
    DeleteNode { node_id: u32 },
    UpdateHeader { entry_point: u32, node_count: u32, max_layer: u32 },
    Commit,
}

/// An entry as a mathematical value.
#[verifier::ext_equal]
pub enum EntryView {
    InsertVector { node_id: u32, layer: u32, vector: Seq<u32> },
    SetNeighbors { node_id: u32, layer: u32, neighbors: Seq<u32> },
    DeleteNode { node_id: u32 },
    UpdateHeader { entry_point: u32, node_count: u32, max_layer: u32 },
    Commit,
}

impl View for WalEntry {
    type V = EntryView;

    open spec fn view(&self) -> EntryView {
        match self {
            WalEntry::InsertVector { node_id, layer, vector } => EntryView::InsertVector {
                node_id: *node_id,
                layer: *layer,
                vector: vector@,
            },
            WalEntry::SetNeighbors { node_id, layer, neighbors } => EntryView::SetNeighbors {
                node_id: *node_id,
                layer: *layer,
                neighbors: neighbors@,
            },
            WalEntry::DeleteNode { node_id } => EntryView::DeleteNode { node_id: *node_id },
            WalEntry::UpdateHeader { entry_point, node_count, max_layer } => EntryView::UpdateHeader {
                entry_point: *entry_point,
                node_count: *node_count,
                max_layer: *max_layer,
            },
            WalEntry::Commit => EntryView::Commit,
        }
    }
}

/// The entries of a list.
pub open spec fn entries_view(v: Seq<WalEntry>) -> Seq<EntryView> {
    v.map_values(|e: WalEntry| e@)
}

/// The transactions of a list.
pub open spec fn txs_view(v: Seq<Vec<WalEntry>>) -> Seq<Seq<EntryView>> {
    v.map_values(|t: Vec<WalEntry>| entries_view(t@))
}

/// Numbers one after the other, least significant byte first.
pub open spec fn words(s: Seq<u32>) -> Seq<u8> {
    Seq::new(4 * s.len(), |i: int| bytes::le32(s[i / 4])[i % 4])
}

/// The bytes of an entry: its tag and its fields.
pub open spec fn entry_bytes(e: EntryView) -> Seq<u8> {
    match e {
        EntryView::InsertVector { node_id, layer, vector } => seq![1u8] + bytes::le32(node_id)
            + bytes::le32(layer) + bytes::le32(vector.len() as u32) + words(vector),
        EntryView::SetNeighbors { node_id, layer, neighbors } => seq![2u8] + bytes::le32(node_id)
            + bytes::le32(layer) + bytes::le32(neighbors.len() as u32) + words(neighbors),
        EntryView::DeleteNode { node_id } => seq![3u8] + bytes::le32(node_id),
        EntryView::UpdateHeader { entry_point, node_count, max_layer } => seq![4u8] + bytes::le32(
            entry_point,
        ) + bytes::le32(node_count) + bytes::le32(max_layer),
        EntryView::Commit => seq![255u8],
    }
}

/// The list in an entry is not too long to be counted.
pub open spec fn countable(e: EntryView) -> bool {
    match e {
        EntryView::InsertVector { vector, .. } => vector.len() <= u32::MAX,
        EntryView::SetNeighbors { neighbors, .. } => neighbors.len() <= u32::MAX,
        _ => true,
    }
}

/// What bytes hold at a place: nothing more, something unknown, or an entry and
/// where it ends.
#[verifier::ext_equal]
pub enum ParsedView {
    End,
    Bad,
    Entry(EntryView, int),
}

/// Numbers at a place.
pub open spec fn words_at(d: Seq<u8>, at: int, n: int) -> Seq<u32> {
    Seq::new(n as nat, |i: int| bytes::get_u32(d, at + 4 * i))
}

/// The entry at a place.
pub open spec fn entry_at(d: Seq<u8>, at: int) -> ParsedView {
    if at >= d.len() {
        ParsedView::End
    } else if d[at] == 1 || d[at] == 2 {
        if at + 13 > d.len() {
            ParsedView::End
        } else {
            let n = bytes::get_u32(d, at + 9) as int;
            if at + 13 + 4 * n > d.len() {
                ParsedView::End
            } else if d[at] == 1 {
                ParsedView::Entry(
                    EntryView::InsertVector {
                        node_id: bytes::get_u32(d, at + 1),
                        layer: bytes::get_u32(d, at + 5),
                        vector: words_at(d, at + 13, n),
                    },
                    at + 13 + 4 * n,
                )
            } else {
                ParsedView::Entry(
                    EntryView::SetNeighbors {
                        node_id: bytes::get_u32(d, at + 1),
                        layer: bytes::get_u32(d, at + 5),
                        neighbors: words_at(d, at + 13, n),
                    },
                    at + 13 + 4 * n,
                )
            }
        }
    } else if d[at] == 3 {
        if at + 5 > d.len() {
            ParsedView::End
        } else {
            ParsedView::Entry(EntryView::DeleteNode { node_id: bytes::get_u32(d, at + 1) }, at + 5)
        }
    } else if d[at] == 4 {
        if at + 13 > d.len() {
            ParsedView::End
        } else {
            ParsedView::Entry(
                EntryView::UpdateHeader {
                    entry_point: bytes::get_u32(d, at + 1),
                    node_count: bytes::get_u32(d, at + 5),
                    max_layer: bytes::get_u32(d, at + 9),
                },
                at + 13,
            )
        }
    } else if d[at] == 255 {
        ParsedView::Entry(EntryView::Commit, at + 1)
    } else {
        ParsedView::Bad
    }
}

pub proof fn words_read(d: Seq<u8>, at: int, s: Seq<u32>)
    requires
        0 <= at,
        at + 4 * s.len() <= d.len(),
        d.subrange(at, at + 4 * s.len()) == words(s),
    ensures
        words_at(d, at, s.len() as int) == s,
{
    assert forall|j: int| 0 <= j < s.len() implies bytes::get_u32(d, at + 4 * j) == s[j] by {
        let w = words(s);
        bytes::le32_round_trip(s[j]);
        assert forall|k: int| 0 <= k < 4 implies #[trigger] d[at + 4 * j + k] == bytes::le32(
            s[j],
        )[0 + k] by {
            assert(w[4 * j + k] == d[at + (4 * j + k)]);
            assert((4 * j + k) / 4 == j && (4 * j + k) % 4 == k) by (nonlinear_arith)
                requires
                    0 <= k < 4,
            ;
        }
        bytes::get_agree(d, at + 4 * j, bytes::le32(s[j]), 0, 4);
    }
    assert(words_at(d, at, s.len() as int) =~= s);
}

proof fn number_read(d: Seq<u8>, at: int, b: Seq<u8>, off: int, v: u32)
    requires
        0 <= at,
        0 <= off,
        off + 4 <= b.len(),
        at + b.len() <= d.len(),
        d.subrange(at, at + b.len()) == b,
        b.subrange(off, off + 4) == bytes::le32(v),
    ensures
        bytes::get_u32(d, at + off) == v,
{
    assert(d.subrange(at + off, at + off + 4) =~= b.subrange(off, off + 4));
    bytes::get_u32_of(d, at + off, v);
}

/// An entry that was written is read back.
pub proof fn entry_round_trip(d: Seq<u8>, at: int, e: EntryView)
    requires
        countable(e),
        0 <= at,
        at + entry_bytes(e).len() <= d.len(),
        d.subrange(at, at + entry_bytes(e).len()) == entry_bytes(e),
    ensures
        entry_at(d, at) == ParsedView::Entry(e, at + entry_bytes(e).len()),
{
    let b = entry_bytes(e);
    assert(d[at] == b[0]) by {
        assert(d.subrange(at, at + b.len())[0] == d[at + 0]);
    }
    match e {
        EntryView::InsertVector { node_id, layer, vector } => {
            list_read(d, at, 1, node_id, layer, vector);
        },
        EntryView::SetNeighbors { node_id, layer, neighbors } => {
            list_read(d, at, 2, node_id, layer, neighbors);
        },
        EntryView::DeleteNode { node_id } => {
            bytes::le32_round_trip(node_id);
            assert(b.subrange(1, 5) =~= bytes::le32(node_id));
            number_read(d, at, b, 1, node_id);
        },
        EntryView::UpdateHeader { entry_point, node_count, max_layer } => {
            bytes::le32_round_trip(entry_point);
            bytes::le32_round_trip(node_count);
            bytes::le32_round_trip(max_layer);
            assert(b.subrange(1, 5) =~= bytes::le32(entry_point));
            assert(b.subrange(5, 9) =~= bytes::le32(node_count));
            assert(b.subrange(9, 13) =~= bytes::le32(max_layer));
            number_read(d, at, b, 1, entry_point);
            number_read(d, at, b, 5, node_count);
            number_read(d, at, b, 9, max_layer);
        },
        EntryView::Commit => {},
    }
}

proof fn list_read(d: Seq<u8>, at: int, tag: u8, a: u32, c: u32, list: Seq<u32>)
    requires
        list.len() <= u32::MAX,
        0 <= at,
        ({
            let b = seq![tag] + bytes::le32(a) + bytes::le32(c) + bytes::le32(list.len() as u32)
                + words(list);
            &&& at + b.len() <= d.len()
            &&& d.subrange(at, at + b.len()) == b
        }),
    ensures
        d.len() >= at + 13 + 4 * list.len(),
        bytes::get_u32(d, at + 1) == a,
        bytes::get_u32(d, at + 5) == c,
        bytes::get_u32(d, at + 9) == list.len(),
        words_at(d, at + 13, list.len() as int) == list,
        (seq![tag] + bytes::le32(a) + bytes::le32(c) + bytes::le32(list.len() as u32) + words(
            list,
        )).len() == 13 + 4 * list.len(),
{
    let n = list.len() as u32;
    let b = seq![tag] + bytes::le32(a) + bytes::le32(c) + bytes::le32(n) + words(list);
    bytes::le32_round_trip(a);
    bytes::le32_round_trip(c);
    bytes::le32_round_trip(n);
    assert(b.subrange(1, 5) =~= bytes::le32(a));
    assert(b.subrange(5, 9) =~= bytes::le32(c));
    assert(b.subrange(9, 13) =~= bytes::le32(n));
    number_read(d, at, b, 1, a);
    number_read(d, at, b, 5, c);
    number_read(d, at, b, 9, n);
    assert(b.subrange(13, b.len() as int) =~= words(list));
    assert(d.subrange(at + 13, at + 13 + 4 * list.len()) =~= b.subrange(13, b.len() as int));
    words_read(d, at + 13, list);
}

/// Appends numbers to a buffer.
pub(crate) fn append_words(buf: &mut Vec<u8>, list: &Vec<u32>)
    ensures
        final(buf)@ == old(buf)@ + words(list@),
{
    let ghost start = buf@;
    let n: usize = list.len();
    let mut i: usize = 0;
    assert(words(list@.take(0)) =~= Seq::empty());
    while i < n
        invariant
            i <= n,
            n == list@.len(),
            buf@ == start + words(list@.take(i as int)),
        decreases n - i,
    {
        let b = bytes_u32(list[i]);
        append(buf, b.as_slice());
        proof {
            bytes::le32_round_trip(list@[i as int]);
            let a = list@.take(i as int);
            let c = list@.take(i + 1);
            assert(words(c) =~= words(a) + bytes::le32(list@[i as int])) by {
                assert forall|j: int| 0 <= j < words(c).len() implies words(c)[j] == (words(a)
                    + bytes::le32(list@[i as int]))[j] by {
                    if j < 4 * i {
                        assert(j / 4 < i);
                    } else {
                        assert(j / 4 == i && j % 4 == j - 4 * i);
                    }
                }
            }
        }
        i += 1;
    }
    assert(list@.take(n as int) =~= list@);
}

fn append_list(buf: &mut Vec<u8>, tag: u8, node_id: u32, layer: u32, list: &Vec<u32>)
    requires
        list@.len() <= u32::MAX,
    ensures
        final(buf)@ == old(buf)@ + (seq![tag] + bytes::le32(node_id) + bytes::le32(layer)
            + bytes::le32(list@.len() as u32) + words(list@)),
{
    let ghost start = buf@;
    buf.push(tag);
    let a = bytes_u32(node_id);
    append(buf, a.as_slice());
    let b = bytes_u32(layer);
    append(buf, b.as_slice());
    let c = bytes_u32(list.len() as u32);
    append(buf, c.as_slice());
    append_words(buf, list);
    assert(buf@ =~= start + (seq![tag] + bytes::le32(node_id) + bytes::le32(layer) + bytes::le32(
        list@.len() as u32,
    ) + words(list@)));
}

impl WalEntry {
    /// Encode this entry into bytes (tag byte and fields, all little-endian).
    pub fn encode(&self) -> (r: Vec<u8>)
        requires
            countable(self@),
        ensures
            r@ == entry_bytes(self@),
    {
        let mut buf: Vec<u8> = Vec::new();
        match self {
            WalEntry::InsertVector { node_id, layer, vector } => {
                append_list(&mut buf, 1, *node_id, *layer, vector);
            },
            WalEntry::SetNeighbors { node_id, layer, neighbors } => {
                append_list(&mut buf, 2, *node_id, *layer, neighbors);
            },
            WalEntry::DeleteNode { node_id } => {
                buf.push(3);
                let a = bytes_u32(*node_id);
                append(&mut buf, a.as_slice());
            },
            WalEntry::UpdateHeader { entry_point, node_count, max_layer } => {
                buf.push(4);
                let a = bytes_u32(*entry_point);
                append(&mut buf, a.as_slice());
                let b = bytes_u32(*node_count);
                append(&mut buf, b.as_slice());
                let c = bytes_u32(*max_layer);
                append(&mut buf, c.as_slice());
            },
            WalEntry::Commit => {
                buf.push(255);
            },
        }
        assert(buf@ =~= entry_bytes(self@));
        buf
    }
}

/// What was decoded at a place.
pub enum Parsed {
    End,
    Bad,
    Entry(WalEntry, usize),
}

/// What was decoded, as a mathematical value.
pub open spec fn parsed_view(p: Parsed) -> ParsedView {
    match p {
        Parsed::End => ParsedView::End,
        Parsed::Bad => ParsedView::Bad,
        Parsed::Entry(e, n) => ParsedView::Entry(e@, n as int),
    }
}

pub(crate) fn read_words(data: &[u8], at: usize, n: usize) -> (v: Vec<u32>)
    requires
        at + 4 * n <= data@.len(),
    ensures
        v@ == words_at(data@, at as int, n as int),
{
    let mut v: Vec<u32> = Vec::new();
    let mut i: usize = 0;
    let len: usize = data.len();
    while i < n
        invariant
            i <= n,
            at + 4 * n <= len == data@.len(),
            v@ == words_at(data@, at as int, i as int),
        decreases n - i,
    {
        let w: u32 = read_u32(data, at + 4 * i);
        v.push(w);
        assert(v@ =~= words_at(data@, at as int, i + 1));
        i += 1;
    }
    v
}

/// Decode the entry at a place.
pub fn decode_at(data: &[u8], at: usize) -> (r: Parsed)
    ensures
        parsed_view(r) == entry_at(data@, at as int),
{
    let len: usize = data.len();
    if at >= len {
        return Parsed::End;
    }
    let left: usize = len - at;
    let tag: u8 = data[at];
    if tag == 1 || tag == 2 {
        if left < 13 {
            return Parsed::End;
        }
        let node_id: u32 = read_u32(data, at + 1);
        let layer: u32 = read_u32(data, at + 5);
        let n: u32 = read_u32(data, at + 9);
        if (left - 13) / 4 < n as usize {
            return Parsed::End;
        }
        let list = read_words(data, at + 13, n as usize);
        let next: usize = at + 13 + 4 * n as usize;
        if tag == 1 {
            Parsed::Entry(WalEntry::InsertVector { node_id, layer, vector: list }, next)
        } else {
            Parsed::Entry(WalEntry::SetNeighbors { node_id, layer, neighbors: list }, next)
        }
    } else if tag == 3 {
        if left < 5 {
            return Parsed::End;
        }
        Parsed::Entry(WalEntry::DeleteNode { node_id: read_u32(data, at + 1) }, at + 5)
    } else if tag == 4 {
        if left < 13 {
            return Parsed::End;
        }
        Parsed::Entry(
            WalEntry::UpdateHeader {
                entry_point: read_u32(data, at + 1),
                node_count: read_u32(data, at + 5),
                max_layer: read_u32(data, at + 9),
            },
            at + 13,
        )
    } else if tag == 255 {
        Parsed::Entry(WalEntry::Commit, at + 1)
    } else {
        Parsed::Bad
    }
}

/// The next step of reading a log: where it ends, that it is damaged, or an
/// entry and where the next one starts. An entry that is cut off ends the log.
pub open spec fn next_entry(d: Seq<u8>, key: Option<Seq<u8>>, at: int) -> ParsedView {
    if at + 4 > d.len() {
        ParsedView::End
    } else {
        match key {
            None => entry_at(d, at + 4),
            Some(k) => {
                let n = bytes::get_u32(d, at) as int;
                if at + 4 + n > d.len() {
                    ParsedView::End
                } else {
                    match crypto::opened(k, d.subrange(at + 4, at + 4 + n)) {
                        None => ParsedView::Bad,
                        Some(plain) => if plain.len() == 0 {
                            ParsedView::End
                        } else {
                            match entry_at(plain, 0) {
                                ParsedView::Entry(e, _) => ParsedView::Entry(e, at + 4 + n),
                                _ => ParsedView::Bad,
                            }
                        },
                    }
                }
            },
        }
    }
}

/// The committed transactions of a log from a place on, after those that were
/// read before; `None` if it is damaged.
pub open spec fn committed_from(
    d: Seq<u8>,
    key: Option<Seq<u8>>,
    at: int,
    done: Seq<Seq<EntryView>>,
    open: Seq<EntryView>,
) -> Option<Seq<Seq<EntryView>>>
    decreases d.len() - at,
{
    match next_entry(d, key, at) {
        ParsedView::End => Some(done),
        ParsedView::Bad => None,
        ParsedView::Entry(e, next) => if next <= at || next > d.len() {
            None
        } else if e == EntryView::Commit {
            committed_from(d, key, next, done.push(open), Seq::empty())
        } else {
            committed_from(d, key, next, done, open.push(e))
        },
    }
}

/// An entry lies within its bytes.
proof fn entry_advances(d: Seq<u8>, at: int)
    requires
        0 <= at,
    ensures
        entry_at(d, at) matches ParsedView::Entry(_, next) ==> at < next <= d.len(),
{
}

/// The write-ahead log of a vector collection.
pub struct VectorWal {
    pub log: Vec<u8>,
    pub cipher: Option<Cipher>,
}

/// An entry as it stands in a log without encryption.
#[verifier::opaque]
pub open spec fn frame(e: EntryView) -> Seq<u8> {
    bytes::le32(entry_bytes(e).len() as u32) + entry_bytes(e)
}

/// An entry was added to a log.
pub open spec fn appended(a: Seq<u8>, b: Seq<u8>, key: Option<Seq<u8>>, e: EntryView) -> bool {
    match key {
        None => b == a + frame(e),
        Some(k) => {
            let payload = b.skip(a.len() as int + 4);
            &&& b.len() >= a.len() + 4
            &&& b == a + bytes::le32(payload.len() as u32) + payload
            &&& payload.len() == entry_bytes(e).len() + 28
            &&& crypto::opened(k, payload) == Some(entry_bytes(e))
        },
    }
}

impl VectorWal {
    /// A log with the contents of a file.
    pub fn open(log: Vec<u8>, key: Option<&[u8; 32]>) -> (w: VectorWal)
        ensures
            w.log@ == log@,
            key is None ==> w.cipher is None,
            key matches Some(k) ==> table::key_view(w.cipher) == Some(k@),
    {
        let cipher = match key {
            Some(k) => Some(Cipher::new(k)),
            None => None,
        };
        VectorWal { log, cipher }
    }

    /// Append a single entry as `[len: u32][payload]`. When encrypted, the
    /// payload is the sealed encoding, else the encoding itself.
    pub fn append(&mut self, entry: &WalEntry) -> (r: Result<()>)
        ensures
            final(self).cipher == old(self).cipher,
            r is Ok <==> countable(entry@) && entry_bytes(entry@).len() + 28 <= u32::MAX,
            r is Ok ==> appended(
                old(self).log@,
                final(self).log@,
                table::key_view(old(self).cipher),
                entry@,
            ),
            r matches Err(e) ==> e is VectorError && final(self).log@ == old(self).log@,
    {
        let ghost before = self.log@;
        let fits: bool = match entry {
            WalEntry::InsertVector { node_id, layer, vector } => vector.len() <= 0x3FFF_FFFF,
            WalEntry::SetNeighbors { node_id, layer, neighbors } => neighbors.len() <= 0x3FFF_FFFF,
            _ => true,
        };
        proof {
            entry_len(entry@);
        }
        if !fits {
            return Err(BoogyError::VectorError(owned("log entry too long")));
        }
        let data = entry.encode();
        if data.len() > 0xFFFF_FFFF - 28 {
            return Err(BoogyError::VectorError(owned("log entry too long")));
        }
        let payload: Vec<u8> = match &self.cipher {
            Some(c) => match c.encrypt_bytes(data.as_slice()) {
                Ok(b) => b,
                Err(_) => {
                    return Err(BoogyError::VectorError(owned("log entry too long")));
                },
            },
            None => data,
        };
        let len = bytes_u32(payload.len() as u32);
        append(&mut self.log, len.as_slice());
        append(&mut self.log, payload.as_slice());
        proof {
            bytes::le32_round_trip(payload@.len() as u32);
            assert(self.log@ =~= before + bytes::le32(payload@.len() as u32) + payload@);
            assert(self.log@.skip(before.len() as int + 4) =~= payload@);
            reveal(frame);
            if self.cipher is None {
                assert(self.log@ =~= before + frame(entry@));
            }
        }
        Ok(())
    }
}

/// How long an entry is.
pub proof fn entry_len(e: EntryView)
    ensures
        match e {
            EntryView::InsertVector { vector, .. } => entry_bytes(e).len() == 13 + 4 * vector.len(),
            EntryView::SetNeighbors { neighbors, .. } => entry_bytes(e).len() == 13 + 4
                * neighbors.len(),
            _ => entry_bytes(e).len() <= 13,
        },
        entry_bytes(e).len() >= 1,
{
}

/// Entries one after the other in a log without encryption.
pub open spec fn frames(es: Seq<EntryView>) -> Seq<u8>
    decreases es.len(),
{
    if es.len() == 0 {
        Seq::empty()
    } else {
        frames(es.drop_last()) + frame(es.last())
    }
}

/// Entries that a log can hold, none of which commits.
pub open spec fn loggable(es: Seq<EntryView>) -> bool {
    forall|i: int|
        0 <= i < es.len() ==> countable(#[trigger] es[i]) && entry_bytes(es[i]).len() + 28 <= u32::MAX
            && es[i] != EntryView::Commit
}

/// All entries fit.
pub open spec fn all_fit(es: Seq<EntryView>) -> bool {
    forall|i: int|
        0 <= i < es.len() ==> countable(#[trigger] es[i]) && entry_bytes(es[i]).len() + 28 <= u32::MAX
}

/// Entries were added to a log one after the other.
pub open spec fn appended_all(
    a: Seq<u8>,
    b: Seq<u8>,
    key: Option<Seq<u8>>,
    es: Seq<EntryView>,
) -> bool
    decreases es.len(),
{
    if es.len() == 0 {
        a == b
    } else {
        exists|mid: Seq<u8>|
            appended_all(a, mid, key, es.drop_last()) && #[trigger] appended(mid, b, key, es.last())
    }
}

impl VectorWal {
    /// Append all entries, then a commit marker.
    pub fn append_committed(&mut self, entries: &Vec<WalEntry>) -> (r: Result<()>)
        ensures
            final(self).cipher == old(self).cipher,
            r is Ok <==> all_fit(entries_view(entries@)),
            r is Ok ==> appended_all(
                old(self).log@,
                final(self).log@,
                table::key_view(old(self).cipher),
                entries_view(entries@).push(EntryView::Commit),
            ),
            r is Ok && old(self).cipher is None ==> final(self).log@ == old(self).log@ + frames(
                entries_view(entries@),
            ) + frame(EntryView::Commit),
            r matches Err(e) ==> e is VectorError,
    {
        let ghost start = self.log@;
        let ghost es = entries_view(entries@);
        let n: usize = entries.len();
        let mut i: usize = 0;
        assert(es.take(0) =~= Seq::empty());
        while i < n
            invariant
                i <= n,
                n == entries@.len(),
                es == entries_view(entries@),
                self.cipher == old(self).cipher,
                forall|j: int|
                    0 <= j < i ==> countable(#[trigger] es[j]) && entry_bytes(es[j]).len() + 28
                        <= u32::MAX,
                self.cipher is None ==> self.log@ == start + frames(es.take(i as int)),
                appended_all(start, self.log@, table::key_view(self.cipher), es.take(i as int)),
            decreases n - i,
        {
            let ghost mid = self.log@;
            assert(es[i as int] == entries@[i as int]@);
            self.append(&entries[i])?;
            proof {
                assert(es.take(i + 1).drop_last() =~= es.take(i as int));
                assert(es.take(i + 1).last() == es[i as int]);
                assert(appended(mid, self.log@, table::key_view(self.cipher), es[i as int]));
                if self.cipher is None {
                    assert(self.log@ =~= start + frames(es.take(i + 1)));
                }
            }
            i += 1;
        }
        assert(es.take(n as int) =~= es);
        let ghost mid = self.log@;
        self.append(&WalEntry::Commit)?;
        proof {
            let all = es.push(EntryView::Commit);
            assert(all.drop_last() =~= es);
            assert(all.last() == EntryView::Commit);
            assert(appended(mid, self.log@, table::key_view(self.cipher), EntryView::Commit));
        }
        Ok(())
    }

    /// Read all fully-committed transactions: each without its commit entry.
    /// Entries after the last commit are discarded.
    pub fn read_committed(&self) -> (r: Result<Vec<Vec<WalEntry>>>)
        ensures
            match committed_from(
                self.log@,
                table::key_view(self.cipher),
                0,
                Seq::empty(),
                Seq::empty(),
            ) {
                Some(txs) => r matches Ok(v) && txs_view(v@) == txs,
                None => r is Err,
            },
            r matches Err(e) ==> e is Io || e is DecryptionFailed,
    {
        let ghost d = self.log@;
        let ghost key = table::key_view(self.cipher);
        let ghost all = committed_from(d, key, 0, Seq::empty(), Seq::empty());
        let mut done: Vec<Vec<WalEntry>> = Vec::new();
        let mut open: Vec<WalEntry> = Vec::new();
        let mut at: usize = 0;
        assert(txs_view(done@) =~= Seq::empty());
        assert(entries_view(open@) =~= Seq::empty());
        loop
            invariant
                at <= d.len(),
                d == self.log@,
                key == table::key_view(self.cipher),
                all == committed_from(d, key, 0, Seq::empty(), Seq::empty()),
                all == committed_from(d, key, at as int, txs_view(done@), entries_view(open@)),
            decreases d.len() - at,
        {
            let ghost txs0 = txs_view(done@);
            let ghost open0 = entries_view(open@);
            let step = self.step(at)?;
            match step {
                Parsed::End => {
                    return Ok(done);
                },
                Parsed::Bad => {
                    return Err(BoogyError::Io(owned("unknown WAL entry tag")));
                },
                Parsed::Entry(e, next) => {
                    match e {
                        WalEntry::Commit => {
                            let mut tx: Vec<WalEntry> = Vec::new();
                            std::mem::swap(&mut tx, &mut open);
                            done.push(tx);
                            proof {
                                assert(txs_view(done@) =~= txs0.push(open0));
                                assert(entries_view(open@) =~= Seq::empty());
                            }
                        },
                        other => {
                            open.push(other);
                            assert(entries_view(open@) =~= open0.push(other@));
                        },
                    }
                    at = next;
                },
            }
        }
    }

    /// Reads the entry at a place of the log.
    fn step(&self, at: usize) -> (r: Result<Parsed>)
        requires
            at <= self.log@.len(),
        ensures
            r matches Ok(p) ==> parsed_view(p) == next_entry(
                self.log@,
                table::key_view(self.cipher),
                at as int,
            ),
            r matches Ok(Parsed::Entry(_, next)) ==> at < next <= self.log@.len(),
            r matches Err(e) ==> e is DecryptionFailed && next_entry(
                self.log@,
                table::key_view(self.cipher),
                at as int,
            ) == ParsedView::Bad,
    {
        let len: usize = self.log.len();
        if len - at < 4 {
            return Ok(Parsed::End);
        }
        proof {
            entry_advances(self.log@, at + 4);
        }
        match &self.cipher {
            None => Ok(decode_at(self.log.as_slice(), at + 4)),
            Some(c) => {
                let n: usize = read_u32(self.log.as_slice(), at) as usize;
                if len - at - 4 < n {
                    return Ok(Parsed::End);
                }
                let sealed = &self.log.as_slice()[at + 4..at + 4 + n];
                assert(sealed@ =~= self.log@.subrange(at + 4, at + 4 + n));
                let plain = c.decrypt_bytes(sealed)?;
                if plain.len() == 0 {
                    return Ok(Parsed::End);
                }
                match decode_at(plain.as_slice(), 0) {
                    Parsed::Entry(e, _) => Ok(Parsed::Entry(e, at + 4 + n)),
                    _ => Ok(Parsed::Bad),
                }
            },
        }
    }

    /// Clears the log.
    pub fn truncate(&mut self)
        ensures
            final(self).log@.len() == 0,
            final(self).cipher == old(self).cipher,
    {
        self.log = Vec::new();
    }

    /// Whether the log has no content.
    pub fn is_empty(&self) -> (b: bool)
        ensures
            b == (self.log@.len() == 0),
    {
        self.log.len() == 0
    }
}

proof fn frame_read(d: Seq<u8>, at: int, e: EntryView)
    requires
        countable(e),
        0 <= at,
        at + frame(e).len() <= d.len(),
        d.subrange(at, at + frame(e).len()) == frame(e),
    ensures
        next_entry(d, None, at) == ParsedView::Entry(e, at + frame(e).len()),
        frame(e).len() == 4 + entry_bytes(e).len(),
{
    reveal(frame);
    let f = frame(e);
    bytes::le32_round_trip(entry_bytes(e).len() as u32);
    assert(f.subrange(4, f.len() as int) =~= entry_bytes(e));
    assert(d.subrange(at + 4, at + f.len()) =~= f.subrange(4, f.len() as int));
    entry_round_trip(d, at + 4, e);
}

/// A log begins with another.
pub open spec fn begins(d: Seq<u8>, a: Seq<u8>) -> bool {
    a.len() <= d.len() && d.subrange(0, a.len() as int) == a
}

/// An entry that was appended is read where it stands.
#[verifier::spinoff_prover]
proof fn appended_read(d: Seq<u8>, a: Seq<u8>, b: Seq<u8>, key: Option<Seq<u8>>, e: EntryView)
    requires
        appended(a, b, key, e),
        countable(e),
        entry_bytes(e).len() + 28 <= u32::MAX,
        begins(d, b),
    ensures
        next_entry(d, key, a.len() as int) == ParsedView::Entry(e, b.len() as int),
        a.len() < b.len() <= d.len(),
        begins(d, a),
{
    let at = a.len() as int;
    let end = b.len() as int;
    entry_len(e);
    assert(b.subrange(0, at) =~= a);
    assert(d.subrange(0, at) =~= b.subrange(0, at));
    assert(d.subrange(at, end) =~= b.subrange(at, end));
    match key {
        None => {
            assert(b.subrange(at, end) =~= frame(e));
            frame_read(d, at, e);
        },
        Some(k) => {
            let payload = b.skip(at + 4);
            let n = payload.len() as u32;
            bytes::le32_round_trip(n);
            assert(d.subrange(at, at + 4) =~= bytes::le32(n)) by {
                assert(b.subrange(at, at + 4) =~= bytes::le32(n));
                assert(d.subrange(at, at + 4) =~= b.subrange(at, at + 4));
            }
            assert(d.subrange(at + 4, at + 4 + n) =~= payload);
            sealed_read(d, at, k, n, e);
        },
    }
}

/// An encrypted entry is read where it stands.
#[verifier::spinoff_prover]
proof fn sealed_read(d: Seq<u8>, at: int, k: Seq<u8>, n: u32, e: EntryView)
    requires
        countable(e),
        0 <= at,
        at + 4 + n <= d.len(),
        n == entry_bytes(e).len() + 28,
        d.subrange(at, at + 4) == bytes::le32(n),
        crypto::opened(k, d.subrange(at + 4, at + 4 + n)) == Some(entry_bytes(e)),
    ensures
        next_entry(d, Some(k), at) == ParsedView::Entry(e, at + 4 + n),
{
    let plain = entry_bytes(e);
    entry_len(e);
    bytes::get_u32_of(d, at, n);
    assert(plain.subrange(0, plain.len() as int) =~= plain);
    entry_round_trip(plain, 0, e);
}

/// Entries that were appended are read one after the other.
proof fn entries_read(
    d: Seq<u8>,
    a: Seq<u8>,
    b: Seq<u8>,
    key: Option<Seq<u8>>,
    done: Seq<Seq<EntryView>>,
    open: Seq<EntryView>,
    es: Seq<EntryView>,
)
    requires
        loggable(es),
        appended_all(a, b, key, es),
        begins(d, b),
    ensures
        begins(d, a),
        committed_from(d, key, a.len() as int, done, open) == committed_from(
            d,
            key,
            b.len() as int,
            done,
            open + es,
        ),
    decreases es.len(),
{
    if es.len() == 0 {
        assert(open + es =~= open);
    } else {
        let rest = es.drop_last();
        let e = es.last();
        assert(e == es[es.len() - 1]);
        let mid = choose|mid: Seq<u8>|
            appended_all(a, mid, key, rest) && #[trigger] appended(mid, b, key, e);
        appended_read(d, mid, b, key, e);
        assert forall|i: int| 0 <= i < rest.len() implies countable(#[trigger] rest[i])
            && entry_bytes(rest[i]).len() + 28 <= u32::MAX && rest[i] != EntryView::Commit by {
            assert(rest[i] == es[i]);
        }
        entries_read(d, a, mid, key, done, open, rest);
        assert((open + rest).push(e) =~= open + es);
    }
}

/// The log holds committed transactions, and nothing behind them.
pub open spec fn holds_txs(a: Seq<u8>, key: Option<Seq<u8>>, txs: Seq<Seq<EntryView>>) -> bool {
    forall|d: Seq<u8>| #[trigger]
        begins(d, a) ==> committed_from(d, key, 0, Seq::empty(), Seq::empty()) == committed_from(
            d,
            key,
            a.len() as int,
            txs,
            Seq::empty(),
        )
}

/// An empty log holds no transaction.
pub proof fn empty_log(key: Option<Seq<u8>>)
    ensures
        holds_txs(Seq::empty(), key, Seq::empty()),
{
}

/// A transaction that is committed to a log, encrypted or not, is read back behind
/// those that it held.
pub proof fn commit_read_back(
    a: Seq<u8>,
    b: Seq<u8>,
    key: Option<Seq<u8>>,
    txs: Seq<Seq<EntryView>>,
    es: Seq<EntryView>,
)
    requires
        holds_txs(a, key, txs),
        loggable(es),
        appended_all(a, b, key, es.push(EntryView::Commit)),
    ensures
        holds_txs(b, key, txs.push(es)),
        committed_from(b, key, 0, Seq::empty(), Seq::empty()) == Some(txs.push(es)),
{
    let all = es.push(EntryView::Commit);
    assert(all.drop_last() =~= es);
    let mid = choose|mid: Seq<u8>|
        appended_all(a, mid, key, all.drop_last()) && #[trigger] appended(
            mid,
            b,
            key,
            all.last(),
        );
    assert forall|d: Seq<u8>| #[trigger] begins(d, b) implies committed_from(
        d,
        key,
        0,
        Seq::empty(),
        Seq::empty(),
    ) == committed_from(d, key, b.len() as int, txs.push(es), Seq::empty()) by {
        entry_len(EntryView::Commit);
        appended_read(d, mid, b, key, EntryView::Commit);
        entries_read(d, a, mid, key, txs, Seq::empty(), es);
        assert(Seq::<EntryView>::empty() + es =~= es);
    }
    assert(b.subrange(0, b.len() as int) =~= b);
    assert(begins(b, b));
    assert(next_entry(b, key, b.len() as int) == ParsedView::End);
}

/// A transaction that was not committed is not read.
pub proof fn open_not_read(
    a: Seq<u8>,
    b: Seq<u8>,
    key: Option<Seq<u8>>,
    txs: Seq<Seq<EntryView>>,
    es: Seq<EntryView>,
)
    requires
        holds_txs(a, key, txs),
        loggable(es),
        appended_all(a, b, key, es),
    ensures
        committed_from(b, key, 0, Seq::empty(), Seq::empty()) == Some(txs),
{
    assert(b.subrange(0, b.len() as int) =~= b);
    assert(begins(b, b));
    entries_read(b, a, b, key, txs, Seq::empty(), es);
    assert(next_entry(b, key, b.len() as int) == ParsedView::End);
}

}
