//! Little-endian integers inside byte sequences, and the lexicographic order
//! of byte strings.

use vstd::prelude::*;

verus! {

/// The `u16` stored at `off`, least significant byte first.
pub open spec fn get_u16(s: Seq<u8>, off: int) -> u16 {
    (s[off] + 0x100 * s[off + 1]) as u16
}

/// The `u32` stored at `off`, least significant byte first.
pub open spec fn get_u32(s: Seq<u8>, off: int) -> u32 {
    (get_u16(s, off) + 0x1_0000 * get_u16(s, off + 2)) as u32
}

/// The `u64` stored at `off`, least significant byte first.
pub open spec fn get_u64(s: Seq<u8>, off: int) -> u64 {
    (get_u32(s, off) + 0x1_0000_0000 * get_u32(s, off + 4)) as u64
}

/// The two bytes of `v`, least significant first.
pub open spec fn le16(v: u16) -> Seq<u8> {
    seq![(v % 0x100) as u8, (v / 0x100) as u8]
}

/// The four bytes of `v`, least significant first.
pub open spec fn le32(v: u32) -> Seq<u8> {
    le16((v % 0x1_0000) as u16) + le16((v / 0x1_0000) as u16)
}

/// The eight bytes of `v`, least significant first.
pub open spec fn le64(v: u64) -> Seq<u8> {
    le32((v % 0x1_0000_0000) as u32) + le32((v / 0x1_0000_0000) as u32)
}

/// Two's complement: the `u64` with the bits of `v`.
pub open spec fn i64_bits(v: i64) -> u64 {
    if v >= 0 {
        v as u64
    } else {
        (v + 0x1_0000_0000_0000_0000) as u64
    }
}

/// Two's complement: the `i64` with the bits of `v`.
pub open spec fn i64_of_bits(v: u64) -> i64 {
    if v < 0x8000_0000_0000_0000 {
        v as i64
    } else {
        (v - 0x1_0000_0000_0000_0000) as i64
    }
}

/// `s` with the bytes of `part` written from `off` on.
pub open spec fn splice(s: Seq<u8>, off: int, part: Seq<u8>) -> Seq<u8> {
    Seq::new(s.len(), |i: int| if off <= i < off + part.len() { part[i - off] } else { s[i] })
}

/// What was stored as a `u16` is read back.
pub proof fn le16_round_trip(v: u16)
    ensures
        le16(v).len() == 2,
        get_u16(le16(v), 0) == v,
{
}

/// What was stored as a `u32` is read back.
pub proof fn le32_round_trip(v: u32)
    ensures
        le32(v).len() == 4,
        get_u32(le32(v), 0) == v,
{
    le16_round_trip((v % 0x1_0000) as u16);
    le16_round_trip((v / 0x1_0000) as u16);
    let s = le32(v);
    assert(s[0] == le16((v % 0x1_0000) as u16)[0]);
    assert(s[1] == le16((v % 0x1_0000) as u16)[1]);
    assert(s[2] == le16((v / 0x1_0000) as u16)[0]);
    assert(s[3] == le16((v / 0x1_0000) as u16)[1]);
}

/// What was stored as a `u64` is read back.
pub proof fn le64_round_trip(v: u64)
    ensures
        le64(v).len() == 8,
        get_u64(le64(v), 0) == v,
{
    let lo = (v % 0x1_0000_0000) as u32;
    let hi = (v / 0x1_0000_0000) as u32;
    le32_round_trip(lo);
    le32_round_trip(hi);
    let s = le64(v);
    assert forall|i: int| 0 <= i < 4 implies s[i] == le32(lo)[i] && s[i + 4] == le32(hi)[i] by {}
    assert(get_u32(s, 0) == lo);
    assert(get_u32(s, 4) == hi);
}

/// The bytes of an integer are its digits, the lowest first.
pub proof fn bytes_are_digits(v: u64, w: u32, x: u16)
    ensures
        le16(x)[0] + 0x100 * le16(x)[1] == x,
        le32(w)[0] + 0x100 * le32(w)[1] + 0x1_0000 * le32(w)[2] + 0x100_0000 * le32(w)[3] == w,
        le64(v)[0] + 0x100 * le64(v)[1] + 0x1_0000 * le64(v)[2] + 0x100_0000 * le64(v)[3]
            + 0x1_0000_0000 * le64(v)[4] + 0x100_0000_0000 * le64(v)[5] + 0x1_0000_0000_0000 * le64(
            v,
        )[6] + 0x100_0000_0000_0000 * le64(v)[7] == v,
{
    le16_round_trip(x);
    le32_round_trip(w);
    le64_round_trip(v);
}

/// A signed integer and its bits are the same up to a multiple of two to the power of
/// sixty-four.
pub proof fn bits_are_congruent(v: i64)
    ensures
        (i64_bits(v) - v) % 0x1_0000_0000_0000_0000 == 0,
{
}

/// The integers read at an offset depend on the bytes there alone.
pub proof fn get_agree(a: Seq<u8>, i: int, b: Seq<u8>, j: int, len: int)
    requires
        forall|k: int| 0 <= k < len ==> #[trigger] a[i + k] == b[j + k],
    ensures
        len >= 2 ==> get_u16(a, i) == get_u16(b, j),
        len >= 4 ==> get_u32(a, i) == get_u32(b, j),
        len >= 8 ==> get_u64(a, i) == get_u64(b, j),
{
    if len >= 2 {
        assert(a[i + 0] == b[j + 0]);
        assert(a[i + 1] == b[j + 1]);
    }
    if len >= 4 {
        assert(a[i + 2] == b[j + 2]);
        assert(a[i + 3] == b[j + 3]);
        assert(a[(i + 2) + 1] == b[(j + 2) + 1]);
    }
    if len >= 8 {
        assert(a[i + 4] == b[j + 4]);
        assert(a[i + 5] == b[j + 5]);
        assert(a[i + 6] == b[j + 6]);
        assert(a[i + 7] == b[j + 7]);
        assert(get_u16(a, i + 4) == get_u16(b, j + 4));
        assert(get_u16(a, i + 6) == get_u16(b, j + 6));
    }
}

/// Bytes that equal those of an integer read back as that integer.
pub proof fn get_u16_of(s: Seq<u8>, off: int, v: u16)
    requires
        0 <= off <= off + 2 <= s.len(),
        s.subrange(off, off + 2) == le16(v),
    ensures
        get_u16(s, off) == v,
{
    let w = s.subrange(off, off + 2);
    assert forall|k: int| 0 <= k < 2 implies #[trigger] s[off + k] == w[0 + k] by {}
    get_agree(s, off, w, 0, 2);
    le16_round_trip(v);
}

/// Bytes that equal those of an integer read back as that integer.
pub proof fn get_u32_of(s: Seq<u8>, off: int, v: u32)
    requires
        0 <= off <= off + 4 <= s.len(),
        s.subrange(off, off + 4) == le32(v),
    ensures
        get_u32(s, off) == v,
{
    let w = s.subrange(off, off + 4);
    assert forall|k: int| 0 <= k < 4 implies #[trigger] s[off + k] == w[0 + k] by {}
    get_agree(s, off, w, 0, 4);
    le32_round_trip(v);
}

/// Bytes that equal those of an integer read back as that integer.
pub proof fn get_u64_of(s: Seq<u8>, off: int, v: u64)
    requires
        0 <= off <= off + 8 <= s.len(),
        s.subrange(off, off + 8) == le64(v),
    ensures
        get_u64(s, off) == v,
{
    let w = s.subrange(off, off + 8);
    assert forall|k: int| 0 <= k < 8 implies #[trigger] s[off + k] == w[0 + k] by {}
    get_agree(s, off, w, 0, 8);
    le64_round_trip(v);
}

/// Two's complement loses nothing.
pub proof fn i64_bits_round_trip(v: i64)
    ensures
        i64_of_bits(i64_bits(v)) == v,
{
}

/// Reads a `u16`.
pub fn read_u16(s: &[u8], off: usize) -> (v: u16)
    requires
        off + 2 <= s@.len(),
    ensures
        v == get_u16(s@, off as int),
{
    s[off] as u16 + 0x100 * (s[off + 1] as u16)
}

/// Reads a `u32`.
pub fn read_u32(s: &[u8], off: usize) -> (v: u32)
    requires
        off + 4 <= s@.len(),
    ensures
        v == get_u32(s@, off as int),
{
    let n: usize = s.len();
    assert(off + 4 <= n);
    read_u16(s, off) as u32 + 0x1_0000 * (read_u16(s, off + 2) as u32)
}

/// Reads a `u64`.
pub fn read_u64(s: &[u8], off: usize) -> (v: u64)
    requires
        off + 8 <= s@.len(),
    ensures
        v == get_u64(s@, off as int),
{
    let n: usize = s.len();
    assert(off + 8 <= n);
    read_u32(s, off) as u64 + 0x1_0000_0000 * (read_u32(s, off + 4) as u64)
}

/// The two bytes of `v`.
pub fn bytes_u16(v: u16) -> (b: [u8; 2])
    ensures
        b@ == le16(v),
{
    let b: [u8; 2] = [(v % 0x100) as u8, (v / 0x100) as u8];
    assert(b@ =~= le16(v));
    b
}

/// The four bytes of `v`.
pub fn bytes_u32(v: u32) -> (b: [u8; 4])
    ensures
        b@ == le32(v),
{
    let lo = bytes_u16((v % 0x1_0000) as u16);
    let hi = bytes_u16((v / 0x1_0000) as u16);
    let b: [u8; 4] = [lo[0], lo[1], hi[0], hi[1]];
    assert(b@ =~= le32(v));
    b
}

/// The eight bytes of `v`.
pub fn bytes_u64(v: u64) -> (b: [u8; 8])
    ensures
        b@ == le64(v),
{
    let lo = bytes_u32((v % 0x1_0000_0000) as u32);
    let hi = bytes_u32((v / 0x1_0000_0000) as u32);
    let b: [u8; 8] = [lo[0], lo[1], lo[2], lo[3], hi[0], hi[1], hi[2], hi[3]];
    assert(b@ =~= le64(v));
    b
}

/// The bits of a signed integer.
pub fn bits_of_i64(v: i64) -> (b: u64)
    ensures
        b == i64_bits(v),
{
    if v >= 0 {
        v as u64
    } else {
        (v as i128 + 0x1_0000_0000_0000_0000) as u64
    }
}

/// The signed integer with the given bits.
pub fn i64_from_bits(b: u64) -> (v: i64)
    ensures
        v == i64_of_bits(b),
{
    if b < 0x8000_0000_0000_0000 {
        b as i64
    } else {
        (b as i128 - 0x1_0000_0000_0000_0000) as i64
    }
}

/// A copy of a slice.
pub fn copy_slice(s: &[u8]) -> (v: Vec<u8>)
    ensures
        v@ == s@,
{
    let mut v: Vec<u8> = Vec::new();
    v.extend_from_slice(s);
    assert(v@ =~= s@);
    v
}

/// Appends the bytes of `s`.
pub fn append(v: &mut Vec<u8>, s: &[u8])
    ensures
        final(v)@ == old(v)@ + s@,
{
    v.extend_from_slice(s);
    assert(v@ =~= old(v)@ + s@);
}

/// `a` and `b` agree before `i` and `i` is where `a` turns out smaller.
pub open spec fn lex_at(a: Seq<u8>, b: Seq<u8>, i: int) -> bool {
    &&& 0 <= i <= a.len()
    &&& i < b.len()
    &&& forall|j: int| 0 <= j < i ==> a[j] == b[j]
    &&& i == a.len() || a[i] < b[i]
}

/// Lexicographic order: `a` is a proper prefix of `b`, or smaller at the first
/// byte in which they differ.
pub open spec fn lex_lt(a: Seq<u8>, b: Seq<u8>) -> bool {
    exists|i: int| lex_at(a, b, i)
}

/// The lexicographic order is irreflexive.
pub proof fn lex_irreflexive(a: Seq<u8>)
    ensures
        !lex_lt(a, a),
{
}

/// The lexicographic order is asymmetric.
pub proof fn lex_asymmetric(a: Seq<u8>, b: Seq<u8>)
    requires
        lex_lt(a, b),
    ensures
        !lex_lt(b, a),
        a != b,
{
    let i = choose|i: int| lex_at(a, b, i);
    if lex_lt(b, a) {
        let j = choose|j: int| lex_at(b, a, j);
        if i < j {
            assert(a[i] == b[i]);
        } else if j < i {
            assert(a[j] == b[j]);
        }
    }
    if a == b {
        assert(i < a.len());
    }
}

/// The lexicographic order is transitive.
pub proof fn lex_transitive(a: Seq<u8>, b: Seq<u8>, c: Seq<u8>)
    requires
        lex_lt(a, b),
        lex_lt(b, c),
    ensures
        lex_lt(a, c),
{
    let i = choose|i: int| lex_at(a, b, i);
    let j = choose|j: int| lex_at(b, c, j);
    if i <= j {
        assert(lex_at(a, c, i));
    } else {
        assert(lex_at(a, c, j));
    }
}

/// Any two byte strings are comparable.
pub proof fn lex_total(a: Seq<u8>, b: Seq<u8>)
    ensures
        lex_lt(a, b) || a == b || lex_lt(b, a),
{
    lex_total_from(a, b, 0);
}

proof fn lex_total_from(a: Seq<u8>, b: Seq<u8>, i: int)
    requires
        0 <= i <= a.len(),
        i <= b.len(),
        forall|j: int| 0 <= j < i ==> a[j] == b[j],
    ensures
        lex_lt(a, b) || a == b || lex_lt(b, a),
    decreases a.len() - i,
{
    if i == a.len() {
        if i == b.len() {
            assert(a =~= b);
        } else {
            assert(lex_at(a, b, i));
        }
    } else if i == b.len() {
        assert(lex_at(b, a, i));
    } else if a[i] < b[i] {
        assert(lex_at(a, b, i));
    } else if b[i] < a[i] {
        assert(lex_at(b, a, i));
    } else {
        lex_total_from(a, b, i + 1);
    }
}

/// Whether `a` comes before `b` lexicographically.
pub fn bytes_less(a: &[u8], b: &[u8]) -> (r: bool)
    ensures
        r == lex_lt(a@, b@),
{
    let mut i: usize = 0;
    while i < a.len() && i < b.len()
        invariant
            i <= a@.len(),
            i <= b@.len(),
            forall|j: int| 0 <= j < i ==> a@[j] == b@[j],
        decreases a@.len() - i,
    {
        if a[i] < b[i] {
            assert(lex_at(a@, b@, i as int));
            return true;
        }
        if a[i] > b[i] {
            assert(lex_at(b@, a@, i as int));
            proof {
                lex_asymmetric(b@, a@);
            }
            return false;
        }
        i += 1;
    }
    if i < b.len() {
        assert(lex_at(a@, b@, i as int));
        true
    } else {
        proof {
            if i < a.len() {
                assert(lex_at(b@, a@, i as int));
                lex_asymmetric(b@, a@);
            } else {
                assert(a@ =~= b@);
                lex_irreflexive(a@);
            }
        }
        false
    }
}

/// Whether two byte strings are equal.
pub fn bytes_equal(a: &[u8], b: &[u8]) -> (r: bool)
    ensures
        r == (a@ == b@),
{
    if a.len() != b.len() {
        return false;
    }
    let mut i: usize = 0;
    while i < a.len()
        invariant
            i <= a@.len() == b@.len(),
            forall|j: int| 0 <= j < i ==> a@[j] == b@[j],
        decreases a@.len() - i,
    {
        if a[i] != b[i] {
            return false;
        }
        i += 1;
    }
    assert(a@ =~= b@);
    true
}

/// Whether `key` starts with `prefix`.
pub fn starts_with(key: &[u8], prefix: &[u8]) -> (r: bool)
    ensures
        r == prefix@.is_prefix_of(key@),
{
    if key.len() < prefix.len() {
        return false;
    }
    let mut i: usize = 0;
    while i < prefix.len()
        invariant
            i <= prefix@.len() <= key@.len(),
            forall|j: int| 0 <= j < i ==> key@[j] == prefix@[j],
        decreases prefix@.len() - i,
    {
        if key[i] != prefix[i] {
            assert(key@.subrange(0, prefix@.len() as int)[i as int] == key@[i as int]);
            return false;
        }
        i += 1;
    }
    assert(key@.subrange(0, prefix@.len() as int) =~= prefix@);
    true
}

}
