//! Rows that do not fit into one page: the trailer of the part that stays
//! inline, and the pages that hold the rest.

use crate::bytes;
use crate::bytes::{append, bytes_u32, read_u32};
use crate::page;
use crate::page::{Page, PAGE_HEADER_SIZE};
use vstd::prelude::*;

verus! {

/// Maximum payload bytes per overflow page (a page minus its header and its checksum).
pub const OVERFLOW_PAYLOAD_MAX: usize = 4076;

/// Sentinel byte at the start of a trailer.
pub const OVERFLOW_MARKER: u8 = 0xFF;

/// Size of the trailer of an inline row:
/// `[marker:1][first_page:4][remaining_len:4]`.
pub const OVERFLOW_TRAILER_SIZE: usize = 9;

/// The row ends with a trailer, as far as its marker tells.
pub open spec fn overflows(row: Seq<u8>) -> bool {
    row.len() >= 9 && row[row.len() - 9] == OVERFLOW_MARKER
}

/// The nine bytes of a trailer.
pub open spec fn trailer(first_page: u32, remaining: u32) -> Seq<u8> {
    seq![OVERFLOW_MARKER] + bytes::le32(first_page) + bytes::le32(remaining)
}

/// The page that a trailer points to.
pub open spec fn trailer_page(row: Seq<u8>) -> u32 {
    bytes::get_u32(row, row.len() - 8)
}

/// The number of bytes that a trailer announces.
pub open spec fn trailer_remaining(row: Seq<u8>) -> u32 {
    bytes::get_u32(row, row.len() - 4)
}

/// The payload of an overflow page.
pub open spec fn payload_of(s: Seq<u8>) -> Seq<u8> {
    s.subrange(16, 16 + page::count_of(s))
}

/// Whether `row_bytes` ends with a trailer.
pub fn has_overflow(row_bytes: &[u8]) -> (r: bool)
    ensures
        r == overflows(row_bytes@),
{
    if row_bytes.len() < OVERFLOW_TRAILER_SIZE {
        return false;
    }
    row_bytes[row_bytes.len() - OVERFLOW_TRAILER_SIZE] == OVERFLOW_MARKER
}

/// Decodes the trailer in the last nine bytes of `row_bytes`: the number of
/// bytes before it, the first overflow page, and the number of bytes stored in
/// overflow pages.
pub fn decode_overflow_trailer(row_bytes: &[u8]) -> (r: (usize, u32, u32))
    requires
        row_bytes@.len() >= 9,
    ensures
        r.0 == row_bytes@.len() - 9,
        r.1 == trailer_page(row_bytes@),
        r.2 == trailer_remaining(row_bytes@),
{
    let start: usize = row_bytes.len() - OVERFLOW_TRAILER_SIZE;
    let first_page: u32 = read_u32(row_bytes, start + 1);
    let remaining_len: u32 = read_u32(row_bytes, start + 5);
    (start, first_page, remaining_len)
}

/// Appends a trailer to `buf`.
pub fn append_overflow_trailer(buf: &mut Vec<u8>, first_page: u32, remaining_len: u32)
    ensures
        final(buf)@ == old(buf)@ + trailer(first_page, remaining_len),
{
    buf.push(OVERFLOW_MARKER);
    let a = bytes_u32(first_page);
    append(buf, a.as_slice());
    let b = bytes_u32(remaining_len);
    append(buf, b.as_slice());
    assert(buf@ =~= old(buf)@ + trailer(first_page, remaining_len));
}

/// A row with an appended trailer has it, and it decodes to what was appended.
pub proof fn trailer_round_trip(inline: Seq<u8>, first_page: u32, remaining: u32)
    ensures
        ({
            let row = inline + trailer(first_page, remaining);
            &&& overflows(row)
            &&& row.len() - 9 == inline.len()
            &&& row.subrange(0, row.len() - 9) == inline
            &&& trailer_page(row) == first_page
            &&& trailer_remaining(row) == remaining
        }),
{
    let row = inline + trailer(first_page, remaining);
    bytes::le32_round_trip(first_page);
    bytes::le32_round_trip(remaining);
    assert(row.subrange(0, row.len() - 9) =~= inline);
    assert(row.subrange(row.len() - 8, row.len() - 4) =~= bytes::le32(first_page));
    assert(row.subrange(row.len() - 4, row.len() as int) =~= bytes::le32(remaining));
    bytes::get_u32_of(row, row.len() - 8, first_page);
    bytes::get_u32_of(row, row.len() - 4, remaining);
}

/// Builds an overflow page from at most `OVERFLOW_PAYLOAD_MAX` bytes.
pub fn build_overflow_page(data: &[u8], next_page: u32) -> (p: Page)
    requires
        data@.len() <= 4076,
    ensures
        page::magic_of(p.data@) == page::MAGIC,
        page::flags_of(p.data@) == page::PAGE_OVERFLOW,
        page::count_of(p.data@) == data@.len(),
        page::next_of(p.data@) == next_page,
        payload_of(p.data@) == data@,
        forall|i: int| 16 + data@.len() <= i < 4092 ==> p.data@[i] == 0,
        page::checksum_ok(p.data@),
        data@.len() <= 4052 ==> page::trimmed(p.data@),
{
    let mut p = Page::new_overflow();
    let n: usize = data.len();
    let ghost before = p.data@;
    p.put(PAGE_HEADER_SIZE, data);
    proof {
        page::same_but_fields(before, p.data@, 16, n as int);
    }
    p.set_overflow_payload_len(n as u16);
    p.set_overflow_next(next_page);
    p.update_checksum();
    assert(payload_of(p.data@) =~= data@) by {
        assert forall|i: int| 0 <= i < n implies p.data@[16 + i] == data@[i] by {
            assert(before.len() == 4096);
        }
    }
    proof {
        page::trimmed_means(p.data@);
        assert(0x10u16 & 1u16 == 0) by (bit_vector);
    }
    p
}

/// The payload stored in an overflow page.
pub fn read_overflow_payload(page: &Page) -> (r: &[u8])
    requires
        page::count_of(page.data@) <= 4080,
    ensures
        r@ == payload_of(page.data@),
{
    let len: usize = page.overflow_payload_len() as usize;
    &page.data[PAGE_HEADER_SIZE..PAGE_HEADER_SIZE + len]
}

}
