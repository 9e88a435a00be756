//! The write-ahead log of a database as bytes: records of one size, one after the
//! other.

use crate::bytes;
use crate::bytes::{append, bytes_u32, read_u32};
use crate::crypto::page_image;
use crate::db;
use crate::db::{LogRecord, RecordView};
use vstd::prelude::*;

verus! {

/// The size of a record: its table, its page and the image.
pub const RECORD_SIZE: usize = 4104;

/// The bytes of a record.
pub open spec fn record_bytes(r: RecordView) -> Seq<u8> {
    bytes::le32(r.table_id) + bytes::le32(r.page_no) + r.image
}

/// The bytes of records.
pub open spec fn log_bytes(rs: Seq<RecordView>) -> Seq<u8>
    decreases rs.len(),
{
    if rs.len() == 0 {
        Seq::empty()
    } else {
        log_bytes(rs.drop_last()) + record_bytes(rs.last())
    }
}

/// The record at a place.
pub open spec fn record_at(d: Seq<u8>, at: int) -> RecordView {
    RecordView {
        table_id: bytes::get_u32(d, at),
        page_no: bytes::get_u32(d, at + 4),
        image: d.subrange(at + 8, at + 4104),
    }
}

/// The whole records that bytes hold; a record that is cut off at the end is left
/// out.
pub open spec fn records_in(d: Seq<u8>) -> Seq<RecordView> {
    Seq::new((d.len() / 4104) as nat, |i: int| record_at(d, 4104 * i))
}

/// The bytes of records.
pub fn encode_log(records: &Vec<LogRecord>) -> (b: Vec<u8>)
    ensures
        b@ == log_bytes(db::records_view(records@)),
{
    let ghost all = db::records_view(records@);
    let mut b: Vec<u8> = Vec::new();
    let n: usize = records.len();
    let mut i: usize = 0;
    assert(all.take(0) =~= Seq::empty());
    while i < n
        invariant
            i <= n,
            n == records@.len(),
            all == db::records_view(records@),
            b@ == log_bytes(all.take(i as int)),
        decreases n - i,
    {
        let ghost before = b@;
        let r = &records[i];
        let t = bytes_u32(r.table_id);
        append(&mut b, t.as_slice());
        let p = bytes_u32(r.page_no);
        append(&mut b, p.as_slice());
        append(&mut b, r.image.as_slice());
        proof {
            assert(all.take(i + 1).drop_last() =~= all.take(i as int));
            assert(all.take(i + 1).last() == records@[i as int]@);
            assert(b@ =~= before + record_bytes(records@[i as int]@));
        }
        i += 1;
    }
    assert(all.take(n as int) =~= all);
    b
}

/// The whole records that bytes hold.
pub fn decode_log(d: &[u8]) -> (r: Vec<LogRecord>)
    ensures
        db::records_view(r@) == records_in(d@),
{
    let mut out: Vec<LogRecord> = Vec::new();
    let n: usize = d.len() / RECORD_SIZE;
    let len: usize = d.len();
    let mut i: usize = 0;
    assert(db::records_view(out@) =~= records_in(d@).take(0));
    while i < n
        invariant
            i <= n,
            n == len / 4104,
            len == d@.len(),
            db::records_view(out@) == records_in(d@).take(i as int),
        decreases n - i,
    {
        let ghost before = out@;
        let at: usize = RECORD_SIZE * i;
        let table_id: u32 = read_u32(d, at);
        let page_no: u32 = read_u32(d, at + 4);
        let image = page_image(&d[at + 8..at + RECORD_SIZE]);
        out.push(LogRecord { table_id, page_no, image });
        proof {
            let e = records_in(d@)[i as int];
            assert(out@.last()@ == e);
            assert(db::records_view(out@) =~= db::records_view(before).push(e));
            assert(records_in(d@).take(i + 1) =~= records_in(d@).take(i as int).push(e));
        }
        i += 1;
    }
    assert(records_in(d@).take(n as int) =~= records_in(d@));
    out
}

/// Records that were written are read back, whatever part of a further record
/// follows them.
pub proof fn log_read_back(rs: Seq<RecordView>, rest: Seq<u8>)
    requires
        forall|i: int| 0 <= i < rs.len() ==> (#[trigger] rs[i]).image.len() == 4096,
        rest.len() < 4104,
    ensures
        records_in(log_bytes(rs) + rest) == rs,
{
    log_len(rs);
    let d = log_bytes(rs) + rest;
    assert(d.len() / 4104 == rs.len());
    assert forall|i: int| 0 <= i < rs.len() implies record_at(d, 4104 * i) == #[trigger] rs[i] by {
        part_of_log(rs, i);
        let b = log_bytes(rs);
        let w = record_bytes(rs[i]);
        bytes::le32_round_trip(rs[i].table_id);
        bytes::le32_round_trip(rs[i].page_no);
        assert(d.subrange(4104 * i, 4104 * i + 4) =~= b.subrange(
            4104 * i,
            4104 * i + 4104,
        ).subrange(0, 4));
        assert(w.subrange(0, 4) =~= bytes::le32(rs[i].table_id));
        bytes::get_u32_of(d, 4104 * i, rs[i].table_id);
        assert(d.subrange(4104 * i + 4, 4104 * i + 8) =~= b.subrange(
            4104 * i,
            4104 * i + 4104,
        ).subrange(4, 8));
        assert(w.subrange(4, 8) =~= bytes::le32(rs[i].page_no));
        bytes::get_u32_of(d, 4104 * i + 4, rs[i].page_no);
        assert(d.subrange(4104 * i + 8, 4104 * i + 4104) =~= b.subrange(
            4104 * i,
            4104 * i + 4104,
        ).subrange(8, 4104));
        assert(w.subrange(8, 4104) =~= rs[i].image);
    }
    assert(records_in(d) =~= rs);
}

proof fn log_len(rs: Seq<RecordView>)
    requires
        forall|i: int| 0 <= i < rs.len() ==> (#[trigger] rs[i]).image.len() == 4096,
    ensures
        log_bytes(rs).len() == 4104 * rs.len(),
    decreases rs.len(),
{
    if rs.len() > 0 {
        let few = rs.drop_last();
        assert forall|i: int| 0 <= i < few.len() implies (#[trigger] few[i]).image.len() == 4096 by {
            assert(few[i] == rs[i]);
        }
        log_len(few);
        assert(rs.last() == rs[rs.len() - 1]);
        bytes::le32_round_trip(rs.last().table_id);
        bytes::le32_round_trip(rs.last().page_no);
    }
}

proof fn part_of_log(rs: Seq<RecordView>, i: int)
    requires
        forall|j: int| 0 <= j < rs.len() ==> (#[trigger] rs[j]).image.len() == 4096,
        0 <= i < rs.len(),
    ensures
        log_bytes(rs).len() == 4104 * rs.len(),
        log_bytes(rs).subrange(4104 * i, 4104 * i + 4104) == record_bytes(rs[i]),
        record_bytes(rs[i]).len() == 4104,
    decreases rs.len(),
{
    let few = rs.drop_last();
    assert forall|j: int| 0 <= j < few.len() implies (#[trigger] few[j]).image.len() == 4096 by {
        assert(few[j] == rs[j]);
    }
    log_len(rs);
    log_len(few);
    bytes::le32_round_trip(rs[i].table_id);
    bytes::le32_round_trip(rs[i].page_no);
    let b = log_bytes(rs);
    if i < few.len() {
        part_of_log(few, i);
        assert(b.subrange(4104 * i, 4104 * i + 4104) =~= log_bytes(few).subrange(
            4104 * i,
            4104 * i + 4104,
        ));
    } else {
        assert(b.subrange(4104 * i, 4104 * i + 4104) =~= record_bytes(rs[i]));
    }
}

}
