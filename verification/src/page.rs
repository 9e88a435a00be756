//! Fixed-size pages: a header, a body and a checksum.

use crate::bytes;
use crate::bytes::{bytes_u16, bytes_u32, bytes_u64, read_u16, read_u32};
use crate::error::{corruption, Result};
use vstd::prelude::*;

verus! {

pub const PAGE_SIZE: usize = 4096;

pub const PAGE_HEADER_SIZE: usize = 16;

/// Where the checksum starts: the last four bytes of a page.
pub const CHECKSUM_OFFSET: usize = 4092;

/// Where the contents of a page end that is encrypted: it has a nonce and a tag, and no
/// room for the bytes from here to the checksum.
pub const SEALED_END: usize = 4068;

/// The bytes that an encrypted page has no room for are zero.
pub open spec fn tail_clear(s: Seq<u8>) -> bool {
    forall|i: int| 4068 <= i < 4092 ==> #[trigger] s[i] == 0
}

/// A page that can be encrypted without a loss, and the rows of which end in time.
#[verifier::opaque]
pub open spec fn trimmed(s: Seq<u8>) -> bool {
    &&& tail_clear(s)
    &&& has_flag(s, PAGE_LEAF) ==> free_of(s) <= 4068
}

/// What [`trimmed`] says.
pub proof fn trimmed_means(s: Seq<u8>)
    ensures
        trimmed(s) <==> tail_clear(s) && (has_flag(s, PAGE_LEAF) ==> free_of(s) <= 4068),
{
    reveal(trimmed);
}

/// New chain pointers and a new checksum leave a page trimmed.
pub proof fn trimmed_same(a: Seq<u8>, b: Seq<u8>)
    requires
        a.len() == 4096,
        b.len() == 4096,
        forall|i: int| 0 <= i < 4092 && !(8 <= i < 16) ==> a[i] == b[i],
    ensures
        trimmed(a) == trimmed(b),
{
    reveal(trimmed);
    agree_at(a, b, 2);
    agree_at(a, b, 6);
    assert(tail_clear(a) ==> tail_clear(b)) by {
        if tail_clear(a) {
            assert forall|i: int| 4068 <= i < 4092 implies #[trigger] b[i] == 0 by {
                assert(a[i] == 0);
            }
        }
    }
    assert(tail_clear(b) ==> tail_clear(a)) by {
        if tail_clear(b) {
            assert forall|i: int| 4068 <= i < 4092 implies #[trigger] a[i] == 0 by {
                assert(b[i] == 0);
            }
        }
    }
}


// Page type flags
pub const PAGE_LEAF: u16 = 0x01;

pub const PAGE_BRANCH: u16 = 0x02;

pub const PAGE_SYSTEM: u16 = 0x04;

pub const PAGE_FREE: u16 = 0x08;

pub const PAGE_OVERFLOW: u16 = 0x10;

/// The first two bytes of every page.
pub const MAGIC: u16 = 0xB00D;

/// One division step of the CRC-32 of IEEE 802.3, with the polynomial reflected.
pub open spec fn crc_bit(c: u32) -> u32 {
    if c & 1 == 1 {
        (c >> 1) ^ 0xEDB8_8320
    } else {
        c >> 1
    }
}

/// The remainder after one more byte.
pub open spec fn crc_byte(c: u32, b: u8) -> u32 {
    crc_bit(crc_bit(crc_bit(crc_bit(crc_bit(crc_bit(crc_bit(crc_bit(c ^ (b as u32)))))))))
}

/// The remainder after a byte string.
pub open spec fn crc_run(c: u32, bytes: Seq<u8>) -> u32
    decreases bytes.len(),
{
    if bytes.len() == 0 {
        c
    } else {
        crc_byte(crc_run(c, bytes.drop_last()), bytes.last())
    }
}

/// The CRC-32 of IEEE 802.3 of a byte string.
#[verifier::opaque]
pub open spec fn crc32(bytes: Seq<u8>) -> u32 {
    !crc_run(0xFFFF_FFFF, bytes)
}

/// `crc32fast::hash` runs a fresh hasher over its argument and returns the
/// checksum, which is the CRC-32 of IEEE 802.3.
pub assume_specification[ crc32fast::hash ](buf: &[u8]) -> (crc: u32)
    ensures
        crc == crc32(buf@),
;

proof fn crc_bit_keeps_apart(a: u32, b: u32)
    requires
        a != b,
    ensures
        crc_bit(a) != crc_bit(b),
{
    assert(a != b ==> (if a & 1 == 1 {
        (a >> 1) ^ 0xEDB8_8320
    } else {
        a >> 1
    }) != (if b & 1 == 1 {
        (b >> 1) ^ 0xEDB8_8320
    } else {
        b >> 1
    })) by (bit_vector);
}

/// Different remainders stay different over a byte, and so do equal ones over
/// different bytes.
proof fn crc_byte_keeps_apart(a: u32, b: u32, x: u8, y: u8)
    requires
        a ^ (x as u32) != b ^ (y as u32),
    ensures
        crc_byte(a, x) != crc_byte(b, y),
{
    let a0 = a ^ (x as u32);
    let b0 = b ^ (y as u32);
    crc_bit_keeps_apart(a0, b0);
    let a1 = crc_bit(a0);
    let b1 = crc_bit(b0);
    crc_bit_keeps_apart(a1, b1);
    let a2 = crc_bit(a1);
    let b2 = crc_bit(b1);
    crc_bit_keeps_apart(a2, b2);
    let a3 = crc_bit(a2);
    let b3 = crc_bit(b2);
    crc_bit_keeps_apart(a3, b3);
    let a4 = crc_bit(a3);
    let b4 = crc_bit(b3);
    crc_bit_keeps_apart(a4, b4);
    let a5 = crc_bit(a4);
    let b5 = crc_bit(b4);
    crc_bit_keeps_apart(a5, b5);
    let a6 = crc_bit(a5);
    let b6 = crc_bit(b5);
    crc_bit_keeps_apart(a6, b6);
    crc_bit_keeps_apart(crc_bit(a6), crc_bit(b6));
}

proof fn crc_run_split(c: u32, s: Seq<u8>, t: Seq<u8>)
    ensures
        crc_run(c, s + t) == crc_run(crc_run(c, s), t),
    decreases t.len(),
{
    if t.len() == 0 {
        assert(s + t =~= s);
    } else {
        assert((s + t).drop_last() =~= s + t.drop_last());
        crc_run_split(c, s, t.drop_last());
    }
}

proof fn crc_run_keeps_apart(a: u32, b: u32, s: Seq<u8>)
    requires
        a != b,
    ensures
        crc_run(a, s) != crc_run(b, s),
    decreases s.len(),
{
    if s.len() > 0 {
        crc_run_keeps_apart(a, b, s.drop_last());
        let x = crc_run(a, s.drop_last());
        let y = crc_run(b, s.drop_last());
        let l = s.last() as u32;
        assert(x != y ==> x ^ l != y ^ l) by (bit_vector);
        crc_byte_keeps_apart(x, y, s.last(), s.last());
    }
}

/// Byte strings that differ in one byte have different checksums.
pub proof fn crc_shows_one_byte(s: Seq<u8>, i: int, x: u8)
    requires
        0 <= i < s.len(),
        x != s[i],
    ensures
        crc32(s.update(i, x)) != crc32(s),
{
    reveal(crc32);
    let t = s.update(i, x);
    let front = s.take(i);
    let back = s.skip(i + 1);
    let c = crc_run(0xFFFF_FFFF, front);
    assert(s =~= front + (seq![s[i]] + back));
    assert(t =~= front + (seq![x] + back));
    crc_run_split(0xFFFF_FFFF, front, seq![s[i]] + back);
    crc_run_split(0xFFFF_FFFF, front, seq![x] + back);
    crc_run_split(c, seq![s[i]], back);
    crc_run_split(c, seq![x], back);
    let p = seq![s[i]];
    let q = seq![x];
    assert(p.drop_last() =~= Seq::empty() && q.drop_last() =~= Seq::empty());
    assert(crc_run(c, p.drop_last()) == c && crc_run(c, q.drop_last()) == c);
    let y = s[i];
    assert(x != y ==> c ^ (y as u32) != c ^ (x as u32)) by (bit_vector);
    crc_byte_keeps_apart(c, c, y, x);
    let a = crc_byte(c, y);
    let b = crc_byte(c, x);
    crc_run_keeps_apart(a, b, back);
    let u = crc_run(a, back);
    let v = crc_run(b, back);
    assert(u != v ==> !u != !v) by (bit_vector);
}

/// A page whose checksum is right is not right after any one of its bytes changed.
pub proof fn checksum_shows_one_byte(s: Seq<u8>, i: int, x: u8)
    requires
        s.len() == 4096,
        checksum_ok(s),
        0 <= i < 4096,
        x != s[i],
    ensures
        !checksum_ok(s.update(i, x)),
{
    let t = s.update(i, x);
    let a = s.subrange(0, 4092);
    let b = t.subrange(0, 4092);
    if i < 4092 {
        assert(b =~= a.update(i, x));
        crc_shows_one_byte(a, i, x);
        agree_at(s, t, 4092);
    } else {
        assert(a =~= b);
        assert(bytes::get_u16(s, 4092) != bytes::get_u16(t, 4092) || bytes::get_u16(s, 4094)
            != bytes::get_u16(t, 4094)) by {
            assert(s[4092] != t[4092] || s[4093] != t[4093] || s[4094] != t[4094] || s[4095]
                != t[4095]);
        }
    }
}

/// A fixed-size page buffer.
#[derive(Clone)]
pub struct Page {
    pub data: [u8; PAGE_SIZE],
}

pub open spec fn magic_of(s: Seq<u8>) -> u16 {
    bytes::get_u16(s, 0)
}

pub open spec fn flags_of(s: Seq<u8>) -> u16 {
    bytes::get_u16(s, 2)
}

pub open spec fn count_of(s: Seq<u8>) -> u16 {
    bytes::get_u16(s, 4)
}

pub open spec fn free_of(s: Seq<u8>) -> u16 {
    bytes::get_u16(s, 6)
}

pub open spec fn next_of(s: Seq<u8>) -> u32 {
    bytes::get_u32(s, 8)
}

pub open spec fn prev_of(s: Seq<u8>) -> u32 {
    bytes::get_u32(s, 12)
}

/// Where the `i`-th slot of the row offset array points.
pub open spec fn slot_of(s: Seq<u8>, i: int) -> u16 {
    bytes::get_u16(s, 16 + 2 * i)
}

/// The checksum stored in the last four bytes.
pub open spec fn stored_crc(s: Seq<u8>) -> u32 {
    bytes::get_u32(s, 4092)
}

/// The stored checksum is that of the bytes before it.
pub open spec fn checksum_ok(s: Seq<u8>) -> bool {
    stored_crc(s) == crc32(s.subrange(0, 4092))
}

pub open spec fn has_flag(s: Seq<u8>, flag: u16) -> bool {
    flags_of(s) & flag != 0
}

/// Every byte of the body (behind the header, before the checksum) is zero.
pub open spec fn body_zero(s: Seq<u8>) -> bool {
    forall|i: int| 16 <= i < 4092 ==> s[i] == 0
}

/// `b` is `a` but for the bytes from `off` to `off + len`.
pub open spec fn same_but(a: Seq<u8>, b: Seq<u8>, off: int, len: int) -> bool {
    &&& a.len() == b.len()
    &&& forall|i: int| 0 <= i < a.len() && !(off <= i < off + len) ==> a[i] == b[i]
}

/// Pages that differ nowhere in `[off, off + len)` read the same integers there.
pub proof fn agree_at(a: Seq<u8>, b: Seq<u8>, off: int)
    ensures
        (forall|i: int| off <= i < off + 2 ==> a[i] == b[i]) ==> bytes::get_u16(a, off) == bytes::get_u16(b, off),
        (forall|i: int| off <= i < off + 4 ==> a[i] == b[i]) ==> bytes::get_u32(a, off) == bytes::get_u32(b, off),
        (forall|i: int| off <= i < off + 8 ==> a[i] == b[i]) ==> bytes::get_u64(a, off) == bytes::get_u64(b, off),
{
    if forall|i: int| off <= i < off + 2 ==> a[i] == b[i] {
        bytes::get_agree(a, off, b, off, 2);
    }
    if forall|i: int| off <= i < off + 4 ==> a[i] == b[i] {
        bytes::get_agree(a, off, b, off, 4);
    }
    if forall|i: int| off <= i < off + 8 ==> a[i] == b[i] {
        bytes::get_agree(a, off, b, off, 8);
    }
}

/// Two pages that agree outside `[off, off + len)` have the header fields and
/// row slots that lie outside it in common.
pub proof fn same_but_fields(a: Seq<u8>, b: Seq<u8>, off: int, len: int)
    requires
        same_but(a, b, off, len),
        a.len() == 4096,
        0 <= len,
    ensures
        (off >= 2 || off + len <= 0) ==> magic_of(a) == magic_of(b),
        (off >= 4 || off + len <= 2) ==> flags_of(a) == flags_of(b),
        (off >= 6 || off + len <= 4) ==> count_of(a) == count_of(b),
        (off >= 8 || off + len <= 6) ==> free_of(a) == free_of(b),
        (off >= 12 || off + len <= 8) ==> next_of(a) == next_of(b),
        (off >= 16 || off + len <= 12) ==> prev_of(a) == prev_of(b),
        (off + len <= 4092) ==> stored_crc(a) == stored_crc(b),
        (off >= 4092) ==> a.subrange(0, 4092) == b.subrange(0, 4092),
        forall|k: int|
            0 <= k && 18 + 2 * k <= 4096 && (off >= 18 + 2 * k || off + len <= 16 + 2 * k)
                ==> #[trigger] slot_of(a, k) == slot_of(b, k),
{
    agree_at(a, b, 0);
    agree_at(a, b, 2);
    agree_at(a, b, 4);
    agree_at(a, b, 6);
    agree_at(a, b, 8);
    agree_at(a, b, 12);
    agree_at(a, b, 4092);
    if off >= 4092 {
        assert(a.subrange(0, 4092) =~= b.subrange(0, 4092));
    }
    assert forall|k: int|
        0 <= k && 18 + 2 * k <= 4096 && (off >= 18 + 2 * k || off + len <= 16 + 2
            * k) implies #[trigger] slot_of(a, k) == slot_of(b, k) by {
        agree_at(a, b, 16 + 2 * k);
    }
}

impl Page {
    /// Writes `bytes` from `off` on.
    pub fn put(&mut self, off: usize, bytes: &[u8])
        requires
            off + bytes@.len() <= 4096,
        ensures
            final(self).data@ == bytes::splice(old(self).data@, off as int, bytes@),
            same_but(old(self).data@, final(self).data@, off as int, bytes@.len() as int),
            final(self).data@.subrange(off as int, off + bytes@.len()) == bytes@,
    {
        let n: usize = bytes.len();
        let mut i: usize = 0;
        while i < n
            invariant
                i <= n == bytes@.len(),
                off + n <= 4096,
                self.data@.len() == 4096,
                forall|j: int| off <= j < off + i ==> self.data@[j] == bytes@[j - off],
                forall|j: int|
                    0 <= j < 4096 && !(off <= j < off + i) ==> self.data@[j] == old(self).data@[j],
            decreases n - i,
        {
            self.data[off + i] = bytes[i];
            i += 1;
        }
        assert(self.data@ =~= bytes::splice(old(self).data@, off as int, bytes@));
        assert(self.data@.subrange(off as int, off + bytes@.len()) =~= bytes@);
    }

    fn put_u16(&mut self, off: usize, v: u16)
        requires
            off + 2 <= 4096,
        ensures
            same_but(old(self).data@, final(self).data@, off as int, 2),
            bytes::get_u16(final(self).data@, off as int) == v,
    {
        let b = bytes_u16(v);
        self.put(off, b.as_slice());
        proof {
            bytes::get_u16_of(self.data@, off as int, v);
        }
    }

    /// Writes a `u32` at `off`.
    pub fn put_u32(&mut self, off: usize, v: u32)
        requires
            off + 4 <= 4096,
        ensures
            same_but(old(self).data@, final(self).data@, off as int, 4),
            bytes::get_u32(final(self).data@, off as int) == v,
    {
        let b = bytes_u32(v);
        self.put(off, b.as_slice());
        proof {
            bytes::le32_round_trip(v);
            bytes::get_u32_of(self.data@, off as int, v);
        }
    }

    /// Writes a `u64` at `off`.
    pub fn put_u64(&mut self, off: usize, v: u64)
        requires
            off + 8 <= 4096,
        ensures
            same_but(old(self).data@, final(self).data@, off as int, 8),
            bytes::get_u64(final(self).data@, off as int) == v,
    {
        let b = bytes_u64(v);
        self.put(off, b.as_slice());
        proof {
            bytes::le64_round_trip(v);
            bytes::get_u64_of(self.data@, off as int, v);
        }
    }

    /// Zeroes the body.
    pub fn clear_body(&mut self)
        ensures
            body_zero(final(self).data@),
            same_but(old(self).data@, final(self).data@, 16, 4076),
    {
        let mut i: usize = PAGE_HEADER_SIZE;
        while i < CHECKSUM_OFFSET
            invariant
                16 <= i <= 4092,
                self.data@.len() == 4096,
                forall|j: int| 16 <= j < i ==> self.data@[j] == 0,
                forall|j: int|
                    0 <= j < 4096 && !(16 <= j < i) ==> self.data@[j] == old(self).data@[j],
            decreases 4092 - i,
        {
            self.data[i] = 0;
            i += 1;
        }
    }

    /// A copy of the page.
    pub fn duplicate(&self) -> (p: Page)
        ensures
            p.data@ == self.data@,
    {
        Page { data: self.data }
    }

    /// An empty leaf.
    pub fn new_leaf() -> (p: Page)
        ensures
            magic_of(p.data@) == MAGIC,
            flags_of(p.data@) == PAGE_LEAF,
            count_of(p.data@) == 0,
            free_of(p.data@) == 16,
            next_of(p.data@) == 0,
            prev_of(p.data@) == 0,
            body_zero(p.data@),
            checksum_ok(p.data@),
    {
        let mut page = Page { data: [0; PAGE_SIZE] };
        page.set_magic(MAGIC);
        page.set_flags(PAGE_LEAF);
        page.set_num_rows(0);
        page.set_free_space_offset(16);
        page.set_next_leaf(0);
        page.set_prev_leaf(0);
        page.update_checksum();
        page
    }

    /// A branch without keys.
    pub fn new_branch() -> (p: Page)
        ensures
            magic_of(p.data@) == MAGIC,
            flags_of(p.data@) == PAGE_BRANCH,
            count_of(p.data@) == 0,
            free_of(p.data@) == 0,
            next_of(p.data@) == 0,
            prev_of(p.data@) == 0,
            body_zero(p.data@),
            checksum_ok(p.data@),
    {
        let mut page = Page { data: [0; PAGE_SIZE] };
        page.set_magic(MAGIC);
        page.set_flags(PAGE_BRANCH);
        page.set_num_rows(0);
        page.update_checksum();
        page
    }

    /// An empty system page.
    pub fn new_system() -> (p: Page)
        ensures
            magic_of(p.data@) == MAGIC,
            flags_of(p.data@) == PAGE_SYSTEM,
            count_of(p.data@) == 0,
            free_of(p.data@) == 0,
            next_of(p.data@) == 0,
            prev_of(p.data@) == 0,
            body_zero(p.data@),
            checksum_ok(p.data@),
    {
        let mut page = Page { data: [0; PAGE_SIZE] };
        page.set_magic(MAGIC);
        page.set_flags(PAGE_SYSTEM);
        page.update_checksum();
        page
    }

    /// An empty overflow page.
    pub fn new_overflow() -> (p: Page)
        ensures
            magic_of(p.data@) == MAGIC,
            flags_of(p.data@) == PAGE_OVERFLOW,
            count_of(p.data@) == 0,
            free_of(p.data@) == 0,
            next_of(p.data@) == 0,
            prev_of(p.data@) == 0,
            body_zero(p.data@),
            checksum_ok(p.data@),
    {
        let mut page = Page { data: [0; PAGE_SIZE] };
        page.set_magic(MAGIC);
        page.set_flags(PAGE_OVERFLOW);
        page.update_checksum();
        page
    }

    /// Takes a page image, if its magic number and checksum are right.
    pub fn from_bytes(data: [u8; PAGE_SIZE]) -> (r: Result<Page>)
        ensures
            r is Ok <==> magic_of(data@) == MAGIC && checksum_ok(data@),
            r matches Ok(p) ==> p.data@ == data@,
            r matches Err(e) ==> e is Corruption,
    {
        let page = Page { data };
        match page.validate() {
            Ok(_) => Ok(page),
            Err(e) => Err(e),
        }
    }

    /// Takes a page image as it is.
    pub fn from_bytes_unchecked(data: [u8; PAGE_SIZE]) -> (p: Page)
        ensures
            p.data@ == data@,
    {
        Page { data }
    }

    fn validate(&self) -> (r: Result<()>)
        ensures
            r is Ok <==> magic_of(self.data@) == MAGIC && checksum_ok(self.data@),
            r matches Err(e) ==> e is Corruption,
    {
        if self.magic() != MAGIC {
            return Err(corruption("bad page magic"));
        }
        if !self.verify_checksum() {
            return Err(corruption("page checksum mismatch"));
        }
        Ok(())
    }

    // --- Header accessors ---
    pub fn magic(&self) -> (v: u16)
        ensures
            v == magic_of(self.data@),
    {
        read_u16(self.data.as_slice(), 0)
    }

    fn set_magic(&mut self, v: u16)
        ensures
            same_but(old(self).data@, final(self).data@, 0, 2),
            magic_of(final(self).data@) == v,
            flags_of(final(self).data@) == flags_of(old(self).data@),
            count_of(final(self).data@) == count_of(old(self).data@),
            free_of(final(self).data@) == free_of(old(self).data@),
            next_of(final(self).data@) == next_of(old(self).data@),
            prev_of(final(self).data@) == prev_of(old(self).data@),
    {
        self.put_u16(0, v);
        proof {
            same_but_fields(old(self).data@, self.data@, 0, 2);
        }
    }

    pub fn flags(&self) -> (v: u16)
        ensures
            v == flags_of(self.data@),
    {
        read_u16(self.data.as_slice(), 2)
    }

    pub fn set_flags(&mut self, v: u16)
        ensures
            same_but(old(self).data@, final(self).data@, 2, 2),
            flags_of(final(self).data@) == v,
            magic_of(final(self).data@) == magic_of(old(self).data@),
            count_of(final(self).data@) == count_of(old(self).data@),
            free_of(final(self).data@) == free_of(old(self).data@),
            next_of(final(self).data@) == next_of(old(self).data@),
            prev_of(final(self).data@) == prev_of(old(self).data@),
    {
        self.put_u16(2, v);
        proof {
            same_but_fields(old(self).data@, self.data@, 2, 2);
        }
    }

    pub fn is_leaf(&self) -> (r: bool)
        ensures
            r == has_flag(self.data@, PAGE_LEAF),
    {
        self.flags() & PAGE_LEAF != 0
    }

    pub fn is_branch(&self) -> (r: bool)
        ensures
            r == has_flag(self.data@, PAGE_BRANCH),
    {
        self.flags() & PAGE_BRANCH != 0
    }

    pub fn is_overflow(&self) -> (r: bool)
        ensures
            r == has_flag(self.data@, PAGE_OVERFLOW),
    {
        self.flags() & PAGE_OVERFLOW != 0
    }

    pub fn num_rows(&self) -> (v: u16)
        ensures
            v == count_of(self.data@),
    {
        read_u16(self.data.as_slice(), 4)
    }

    pub fn set_num_rows(&mut self, v: u16)
        ensures
            same_but(old(self).data@, final(self).data@, 4, 2),
            count_of(final(self).data@) == v,
            magic_of(final(self).data@) == magic_of(old(self).data@),
            flags_of(final(self).data@) == flags_of(old(self).data@),
            free_of(final(self).data@) == free_of(old(self).data@),
            next_of(final(self).data@) == next_of(old(self).data@),
            prev_of(final(self).data@) == prev_of(old(self).data@),
    {
        self.put_u16(4, v);
        proof {
            same_but_fields(old(self).data@, self.data@, 4, 2);
        }
    }

    pub fn free_space_offset(&self) -> (v: u16)
        ensures
            v == free_of(self.data@),
    {
        read_u16(self.data.as_slice(), 6)
    }

    pub fn set_free_space_offset(&mut self, v: u16)
        ensures
            same_but(old(self).data@, final(self).data@, 6, 2),
            free_of(final(self).data@) == v,
            magic_of(final(self).data@) == magic_of(old(self).data@),
            flags_of(final(self).data@) == flags_of(old(self).data@),
            count_of(final(self).data@) == count_of(old(self).data@),
            next_of(final(self).data@) == next_of(old(self).data@),
            prev_of(final(self).data@) == prev_of(old(self).data@),
    {
        self.put_u16(6, v);
        proof {
            same_but_fields(old(self).data@, self.data@, 6, 2);
        }
    }

    pub fn next_leaf(&self) -> (v: u32)
        ensures
            v == next_of(self.data@),
    {
        read_u32(self.data.as_slice(), 8)
    }

    pub fn set_next_leaf(&mut self, v: u32)
        ensures
            same_but(old(self).data@, final(self).data@, 8, 4),
            next_of(final(self).data@) == v,
            magic_of(final(self).data@) == magic_of(old(self).data@),
            flags_of(final(self).data@) == flags_of(old(self).data@),
            count_of(final(self).data@) == count_of(old(self).data@),
            free_of(final(self).data@) == free_of(old(self).data@),
            prev_of(final(self).data@) == prev_of(old(self).data@),
    {
        self.put_u32(8, v);
        proof {
            same_but_fields(old(self).data@, self.data@, 8, 4);
        }
    }

    pub fn prev_leaf(&self) -> (v: u32)
        ensures
            v == prev_of(self.data@),
    {
        read_u32(self.data.as_slice(), 12)
    }

    pub fn set_prev_leaf(&mut self, v: u32)
        ensures
            same_but(old(self).data@, final(self).data@, 12, 4),
            prev_of(final(self).data@) == v,
            magic_of(final(self).data@) == magic_of(old(self).data@),
            flags_of(final(self).data@) == flags_of(old(self).data@),
            count_of(final(self).data@) == count_of(old(self).data@),
            free_of(final(self).data@) == free_of(old(self).data@),
            next_of(final(self).data@) == next_of(old(self).data@),
    {
        self.put_u32(12, v);
        proof {
            same_but_fields(old(self).data@, self.data@, 12, 4);
        }
    }

    /// The number of payload bytes of an overflow page.
    pub fn overflow_payload_len(&self) -> (v: u16)
        ensures
            v == count_of(self.data@),
    {
        self.num_rows()
    }

    pub fn set_overflow_payload_len(&mut self, v: u16)
        ensures
            same_but(old(self).data@, final(self).data@, 4, 2),
            count_of(final(self).data@) == v,
            magic_of(final(self).data@) == magic_of(old(self).data@),
            flags_of(final(self).data@) == flags_of(old(self).data@),
            next_of(final(self).data@) == next_of(old(self).data@),
    {
        self.set_num_rows(v);
    }

    /// The overflow page that continues this one, or 0.
    pub fn overflow_next(&self) -> (v: u32)
        ensures
            v == next_of(self.data@),
    {
        self.next_leaf()
    }

    pub fn set_overflow_next(&mut self, v: u32)
        ensures
            same_but(old(self).data@, final(self).data@, 8, 4),
            next_of(final(self).data@) == v,
            magic_of(final(self).data@) == magic_of(old(self).data@),
            flags_of(final(self).data@) == flags_of(old(self).data@),
            count_of(final(self).data@) == count_of(old(self).data@),
    {
        self.set_next_leaf(v);
    }

    // --- Checksum ---

    /// Stores the checksum of all bytes but the last four in the last four.
    pub fn update_checksum(&mut self)
        ensures
            same_but(old(self).data@, final(self).data@, 4092, 4),
            checksum_ok(final(self).data@),
            magic_of(final(self).data@) == magic_of(old(self).data@),
            flags_of(final(self).data@) == flags_of(old(self).data@),
            count_of(final(self).data@) == count_of(old(self).data@),
            free_of(final(self).data@) == free_of(old(self).data@),
            next_of(final(self).data@) == next_of(old(self).data@),
            prev_of(final(self).data@) == prev_of(old(self).data@),
    {
        let crc: u32 = crc32fast::hash(&self.data[0..4092]);
        self.put_u32(4092, crc);
        proof {
            same_but_fields(old(self).data@, self.data@, 4092, 4);
        }
    }

    /// Whether the stored checksum is right.
    pub fn verify_checksum(&self) -> (r: bool)
        ensures
            r == checksum_ok(self.data@),
    {
        let stored: u32 = read_u32(self.data.as_slice(), 4092);
        let computed: u32 = crc32fast::hash(&self.data[0..4092]);
        stored == computed
    }

    // --- Row offset array (leaf pages) ---

    /// The byte offset within the page where row `i` starts.
    pub fn row_offset(&self, i: u16) -> (v: u16)
        requires
            18 + 2 * i <= 4096,
        ensures
            v == slot_of(self.data@, i as int),
    {
        read_u16(self.data.as_slice(), PAGE_HEADER_SIZE + (i as usize) * 2)
    }

    /// Sets the byte offset of row `i`.
    pub fn set_row_offset(&mut self, i: u16, offset: u16)
        requires
            18 + 2 * i <= 4096,
        ensures
            same_but(old(self).data@, final(self).data@, 16 + 2 * i, 2),
            slot_of(final(self).data@, i as int) == offset,
            forall|k: int|
                0 <= k && k != i && 18 + 2 * k <= 4096 ==> #[trigger] slot_of(final(self).data@, k)
                    == slot_of(old(self).data@, k),
    {
        self.put_u16(PAGE_HEADER_SIZE + (i as usize) * 2, offset);
        proof {
            same_but_fields(old(self).data@, self.data@, 16 + 2 * i, 2);
        }
    }

    /// The bytes between the end of the row data and the checksum, or 0 where
    /// the row data does not reach past the next free slot of the offset array.
    pub fn free_space(&self) -> (n: usize)
        requires
            free_of(self.data@) <= 4092,
        ensures
            n == if free_of(self.data@) <= 18 + 2 * count_of(self.data@) {
                0
            } else {
                4092 - free_of(self.data@)
            },
    {
        let offset_array_end: usize = PAGE_HEADER_SIZE + (self.num_rows() as usize) * 2 + 2;
        let row_data_start: usize = self.free_space_offset() as usize;
        if row_data_start <= offset_array_end {
            0
        } else {
            PAGE_SIZE - 4 - row_data_start
        }
    }
}

impl Default for Page {
    /// A page of zeroes.
    fn default() -> (p: Page)
        ensures
            p.data@ == Seq::new(4096, |i: int| 0u8),
    {
        let p = Page { data: [0; PAGE_SIZE] };
        assert(p.data@ =~= Seq::new(4096, |i: int| 0u8));
        p
    }
}

}
