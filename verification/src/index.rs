//! Keys of indexes.
//!
//! A key is the sortable encoding of a value (or of several values, one after
//! another) and the row id in big-endian order, so that keys sort by value, then
//! by row id, when they are compared byte by byte.

use crate::bytes;
use crate::bytes::append;
use crate::value;
use crate::value::{integer_of_real, real_of_integer, Type, Value, ValueView};
use vstd::prelude::*;

verus! {

// ---------------------------------------------------------------------------
// Big-endian integers
// ---------------------------------------------------------------------------

/// The last `n` bytes of an integer, highest first.
pub open spec fn be(v: int, n: nat) -> Seq<u8>
    decreases n,
{
    if n == 0 {
        Seq::empty()
    } else {
        be(v / 256, (n - 1) as nat).push((v % 256) as u8)
    }
}

/// The integer that bytes stand for, highest first.
pub open spec fn from_be(s: Seq<u8>) -> int
    decreases s.len(),
{
    if s.len() == 0 {
        0
    } else {
        from_be(s.drop_last()) * 256 + s.last()
    }
}

/// 256 to the power of `n`.
pub open spec fn bytes_range(n: nat) -> int
    decreases n,
{
    if n == 0 {
        1
    } else {
        256 * bytes_range((n - 1) as nat)
    }
}

proof fn range_of_eight()
    ensures
        bytes_range(8) == 0x1_0000_0000_0000_0000,
{
    reveal_with_fuel(bytes_range, 9);
}

proof fn be_round_trip(v: int, n: nat)
    requires
        0 <= v < bytes_range(n),
    ensures
        be(v, n).len() == n,
        from_be(be(v, n)) == v,
    decreases n,
{
    if n > 0 {
        be_round_trip(v / 256, (n - 1) as nat);
        assert(be(v, n).drop_last() =~= be(v / 256, (n - 1) as nat));
    }
}

proof fn be_len(v: int, n: nat)
    ensures
        be(v, n).len() == n,
    decreases n,
{
    if n > 0 {
        be_len(v / 256, (n - 1) as nat);
    }
}

/// Big-endian bytes of the same length sort as the integers do.
proof fn be_sorts(a: int, b: int, n: nat)
    requires
        0 <= a < b < bytes_range(n),
    ensures
        parted_early(be(a, n), be(b, n)),
    decreases n,
{
    if n > 0 {
        let m = (n - 1) as nat;
        let x = be(a / 256, m);
        let y = be(b / 256, m);
        be_len(a / 256, m);
        be_len(b / 256, m);
        if a / 256 < b / 256 {
            be_sorts(a / 256, b / 256, m);
            let i = choose|i: int| early_at(x, y, i);
            assert(early_at(be(a, n), be(b, n), i));
        } else {
            assert(a / 256 == b / 256);
            assert(early_at(be(a, n), be(b, n), m as int));
        }
    }
}

/// `a` is smaller than `b` at index `i`, and they agree before it.
pub open spec fn early_at(a: Seq<u8>, b: Seq<u8>, i: int) -> bool {
    &&& 0 <= i < a.len()
    &&& i < b.len()
    &&& forall|j: int| 0 <= j < i ==> a[j] == b[j]
    &&& a[i] < b[i]
}

/// `a` sorts before `b` whatever is appended to them.
pub open spec fn parted_early(a: Seq<u8>, b: Seq<u8>) -> bool {
    exists|i: int| early_at(a, b, i)
}

proof fn parted_append(a: Seq<u8>, b: Seq<u8>, x: Seq<u8>, y: Seq<u8>)
    requires
        parted_early(a, b),
    ensures
        parted_early(a + x, b + y),
        bytes::lex_lt(a + x, b + y),
        bytes::lex_lt(a, b),
{
    let i = choose|i: int| early_at(a, b, i);
    assert(early_at(a + x, b + y, i));
    assert(bytes::lex_at(a + x, b + y, i));
    assert(bytes::lex_at(a, b, i));
}

proof fn parted_behind(p: Seq<u8>, a: Seq<u8>, b: Seq<u8>)
    requires
        parted_early(a, b),
    ensures
        parted_early(p + a, p + b),
{
    let i = choose|i: int| early_at(a, b, i);
    assert(early_at(p + a, p + b, p.len() + i));
}

/// The big-endian bytes of a `u64`.
fn be_bytes(v: u64) -> (b: [u8; 8])
    ensures
        b@ == be(v as int, 8),
{
    let v1: u64 = v / 256;
    let v2: u64 = v1 / 256;
    let v3: u64 = v2 / 256;
    let v4: u64 = v3 / 256;
    let v5: u64 = v4 / 256;
    let v6: u64 = v5 / 256;
    let v7: u64 = v6 / 256;
    let b: [u8; 8] = [
        (v7 % 256) as u8,
        (v6 % 256) as u8,
        (v5 % 256) as u8,
        (v4 % 256) as u8,
        (v3 % 256) as u8,
        (v2 % 256) as u8,
        (v1 % 256) as u8,
        (v % 256) as u8,
    ];
    proof {
        reveal_with_fuel(be, 9);
        assert(b@ =~= be(v as int, 8));
    }
    b
}

/// Reads a big-endian `u64`.
fn read_be(s: &[u8], off: usize) -> (v: u64)
    requires
        off + 8 <= s@.len(),
    ensures
        v == from_be(s@.subrange(off as int, off + 8)),
{
    let ghost part = s@.subrange(off as int, off + 8);
    let len: usize = s.len();
    let mut v: u64 = 0;
    let mut i: usize = 0;
    proof {
        assert(part.take(0) =~= Seq::empty());
        reveal_with_fuel(bytes_range, 9);
    }
    while i < 8
        invariant
            i <= 8,
            off + 8 <= len == s@.len(),
            part == s@.subrange(off as int, off + 8),
            v == from_be(part.take(i as int)),
            v < bytes_range(i as nat),
            bytes_range(i as nat) * bytes_range((8 - i) as nat) == 0x1_0000_0000_0000_0000,
            bytes_range((8 - i) as nat) >= 1,
        decreases 8 - i,
    {
        proof {
            let r = bytes_range(i as nat);
            let q = bytes_range((7 - i) as nat);
            assert(bytes_range((8 - i) as nat) == 256 * q);
            assert(bytes_range((i + 1) as nat) == 256 * r);
            range_positive((7 - i) as nat);
            assert(r * (256 * q) == (256 * r) * q) by (nonlinear_arith);
            assert((256 * r) * q >= 256 * r) by (nonlinear_arith)
                requires
                    q >= 1,
                    r >= 0,
            ;
            assert(part.take(i + 1).drop_last() =~= part.take(i as int));
            assert(part.take(i + 1).last() == s@[off + i]);
        }
        v = v * 256 + s[off + i] as u64;
        i += 1;
    }
    assert(part.take(8) =~= part);
    v
}

proof fn range_positive(n: nat)
    ensures
        bytes_range(n) >= 1,
    decreases n,
{
    if n > 0 {
        range_positive((n - 1) as nat);
    }
}

// ---------------------------------------------------------------------------
// Encodings of values
// ---------------------------------------------------------------------------

/// The sortable encoding of an integer.
pub open spec fn integer_code(v: i64) -> Seq<u8> {
    be(v + 0x8000_0000_0000_0000, 8)
}

/// The number by which a double is sorted: its bits with the sign bit flipped, or
/// with all bits flipped below zero.
pub open spec fn real_number(bits: u64) -> int {
    if bits >= 0x8000_0000_0000_0000 {
        0xFFFF_FFFF_FFFF_FFFF - bits
    } else {
        bits + 0x8000_0000_0000_0000
    }
}

/// The sortable encoding of a double.
pub open spec fn real_code(bits: u64) -> Seq<u8> {
    be(real_number(bits), 8)
}

/// The sortable encoding of a text: its bytes and a terminator.
pub open spec fn text_code(s: Seq<char>) -> Seq<u8> {
    vstd::utf8::encode_utf8(s).push(0u8)
}

/// A text without the byte that ends texts in keys.
pub open spec fn no_zero(s: Seq<char>) -> bool {
    !vstd::utf8::encode_utf8(s).contains(0u8)
}

/// The row id at the end of a key.
pub open spec fn rowid_code(rowid: u64) -> Seq<u8> {
    be(rowid as int, 8)
}

/// The sortable encoding of a value in a column of the given type: numbers are
/// turned into the type of the column, null and other types have none.
pub open spec fn value_code(t: Type, v: ValueView) -> Option<Seq<u8>> {
    match (t, v) {
        (_, ValueView::Null) => None,
        (Type::Integer, ValueView::Integer(i)) => Some(integer_code(i)),
        (Type::Real, ValueView::Real(r)) => Some(real_code(r)),
        (Type::Text, ValueView::Text(s)) => Some(text_code(s)),
        (Type::Integer, ValueView::Real(r)) => Some(integer_code(value::real_as_integer(r) as i64)),
        (Type::Real, ValueView::Integer(i)) => Some(real_code(value::integer_as_real(i) as u64)),
        _ => None,
    }
}

/// The value is a text with a zero byte.
pub open spec fn is_torn(v: ValueView) -> bool {
    v matches ValueView::Text(s) && !no_zero(s)
}

/// The key of a value, if it has one.
pub open spec fn key_code(t: Type, v: ValueView, rowid: u64) -> Option<Seq<u8>> {
    match value_code(t, v) {
        None => None,
        Some(c) => if is_torn(v) {
            None
        } else {
            Some(c + rowid_code(rowid))
        },
    }
}

/// The encodings of several values, one after another.
pub open spec fn values_code(ts: Seq<Type>, vs: Seq<ValueView>) -> Option<Seq<u8>>
    decreases ts.len(),
{
    if ts.len() == 0 || vs.len() == 0 {
        Some(Seq::empty())
    } else {
        match (values_code(ts.drop_last(), vs.take(ts.len() - 1)), value_code(ts.last(), vs[ts.len()
            - 1])) {
            (Some(a), Some(b)) => Some(a + b),
            _ => None,
        }
    }
}

/// What values hold.
pub open spec fn views(vs: Seq<Value>) -> Seq<ValueView> {
    vs.map_values(|v: Value| v@)
}

fn encode_i64_sortable(val: i64) -> (b: [u8; 8])
    ensures
        b@ == integer_code(val),
{
    let n: i128 = val as i128 + 0x8000_0000_0000_0000;
    be_bytes(n as u64)
}

fn encode_f64_sortable(bits: u64) -> (b: [u8; 8])
    ensures
        b@ == real_code(bits),
{
    if bits >= 0x8000_0000_0000_0000 {
        be_bytes(0xFFFF_FFFF_FFFF_FFFF - bits)
    } else {
        be_bytes(bits + 0x8000_0000_0000_0000)
    }
}

/// The prefix of the keys of an integer.
pub fn encode_integer_prefix(val: i64) -> (k: Vec<u8>)
    ensures
        k@ == integer_code(val),
{
    let b: [u8; 8] = encode_i64_sortable(val);
    bytes::copy_slice(b.as_slice())
}

/// The prefix of the keys of a double, given by its bits.
pub fn encode_real_prefix(bits: u64) -> (k: Vec<u8>)
    ensures
        k@ == real_code(bits),
{
    let b: [u8; 8] = encode_f64_sortable(bits);
    bytes::copy_slice(b.as_slice())
}

/// The prefix of the keys of a text, with the terminator, so that only keys of
/// this very text begin with it.
pub fn encode_text_prefix(val: &str) -> (k: Vec<u8>)
    ensures
        k@ == text_code(val@),
{
    let mut k: Vec<u8> = bytes::copy_slice(val.as_bytes());
    k.push(0);
    k
}

fn append_rowid(k: &mut Vec<u8>, rowid: u64)
    ensures
        final(k)@ == old(k)@ + rowid_code(rowid),
{
    let b: [u8; 8] = be_bytes(rowid);
    append(k, b.as_slice());
}

/// The key of an integer: 16 bytes.
pub fn encode_index_key_integer(val: i64, rowid: u64) -> (k: Vec<u8>)
    ensures
        k@ == integer_code(val) + rowid_code(rowid),
{
    let mut k: Vec<u8> = encode_integer_prefix(val);
    append_rowid(&mut k, rowid);
    k
}

/// The key of a double, given by its bits: 16 bytes.
pub fn encode_index_key_real(bits: u64, rowid: u64) -> (k: Vec<u8>)
    ensures
        k@ == real_code(bits) + rowid_code(rowid),
{
    let mut k: Vec<u8> = encode_real_prefix(bits);
    append_rowid(&mut k, rowid);
    k
}

/// The key of a text. A text with a zero byte has none.
pub fn encode_index_key_text(val: &str, rowid: u64) -> (k: Option<Vec<u8>>)
    ensures
        k is Some <==> no_zero(val@),
        k matches Some(b) ==> b@ == text_code(val@) + rowid_code(rowid),
{
    if has_zero(val) {
        return None;
    }
    let mut k: Vec<u8> = encode_text_prefix(val);
    append_rowid(&mut k, rowid);
    Some(k)
}

pub(crate) fn has_zero(val: &str) -> (r: bool)
    ensures
        r == !no_zero(val@),
{
    let b: &[u8] = val.as_bytes();
    let n: usize = b.len();
    let mut i: usize = 0;
    while i < n
        invariant
            i <= n == b@.len(),
            b@ == vstd::utf8::encode_utf8(val@),
            forall|j: int| 0 <= j < i ==> b@[j] != 0,
        decreases n - i,
    {
        if b[i] == 0 {
            assert(b@.contains(b@[i as int]));
            return true;
        }
        i += 1;
    }
    false
}

/// The prefix of the keys of a value. Null has none.
pub fn encode_value_prefix(col_type: Type, val: &Value) -> (k: Option<Vec<u8>>)
    ensures
        k is Some <==> value_code(col_type, val@) is Some,
        k matches Some(b) ==> Some(b@) == value_code(col_type, val@),
{
    match (col_type, val) {
        (Type::Integer, Value::Integer(i)) => Some(encode_integer_prefix(*i)),
        (Type::Real, Value::Real(r)) => Some(encode_real_prefix(*r)),
        (Type::Text, Value::Text(s)) => Some(encode_text_prefix(s.as_str())),
        (Type::Integer, Value::Real(r)) => Some(encode_integer_prefix(integer_of_real(*r))),
        (Type::Real, Value::Integer(i)) => Some(encode_real_prefix(real_of_integer(*i))),
        _ => None,
    }
}

/// The key of a value. Null is not indexed.
pub fn encode_index_key(col_type: Type, val: &Value, rowid: u64) -> (k: Option<Vec<u8>>)
    ensures
        k is Some <==> key_code(col_type, val@, rowid) is Some,
        k matches Some(b) ==> Some(b@) == key_code(col_type, val@, rowid),
{
    match (col_type, val) {
        (Type::Text, Value::Text(s)) => encode_index_key_text(s.as_str(), rowid),
        _ => match encode_value_prefix(col_type, val) {
            None => None,
            Some(p) => {
                let mut k: Vec<u8> = p;
                append_rowid(&mut k, rowid);
                Some(k)
            },
        },
    }
}

/// The prefix of the keys of several values, in the order of their columns. There
/// is none if one of them has none.
pub fn encode_composite_value_prefix(col_types: &[Type], vals: &[Value]) -> (k: Option<Vec<u8>>)
    requires
        col_types@.len() == vals@.len(),
    ensures
        k is Some <==> values_code(col_types@, views(vals@)) is Some,
        k matches Some(b) ==> Some(b@) == values_code(col_types@, views(vals@)),
{
    let n: usize = col_types.len();
    let ghost ts = col_types@;
    let ghost vs = views(vals@);
    let mut out: Vec<u8> = Vec::new();
    let mut i: usize = 0;
    while i < n
        invariant
            i <= n == ts.len() == vs.len() == vals@.len(),
            ts == col_types@,
            vs == views(vals@),
            values_code(ts.take(i as int), vs.take(i as int)) == Some(out@),
        decreases n - i,
    {
        let ghost before = out@;
        proof {
            let a = ts.take(i + 1);
            let b = vs.take(i + 1);
            assert(a.drop_last() =~= ts.take(i as int));
            assert(b.take(i as int) =~= vs.take(i as int));
            assert(a.last() == ts[i as int]);
            assert(b[i as int] == vs[i as int]);
            if value_code(ts[i as int], vs[i as int]) is None {
                values_code_none(ts, vs, i as int);
            }
        }
        match encode_value_prefix(col_types[i], &vals[i]) {
            None => {
                return None;
            },
            Some(p) => {
                append(&mut out, p.as_slice());
            },
        }
        i += 1;
    }
    assert(ts.take(n as int) =~= ts);
    assert(vs.take(n as int) =~= vs);
    Some(out)
}

/// One value without an encoding is enough for there to be none.
proof fn values_code_none(ts: Seq<Type>, vs: Seq<ValueView>, i: int)
    requires
        ts.len() == vs.len(),
        0 <= i < ts.len(),
        value_code(ts[i], vs[i]) is None,
    ensures
        values_code(ts, vs) is None,
    decreases ts.len(),
{
    if i < ts.len() - 1 {
        values_code_none(ts.drop_last(), vs.take(ts.len() - 1), i);
    }
}

/// The key of several values. There is none if one of them has none, or is a text
/// with a zero byte.
pub fn encode_composite_index_key(col_types: &[Type], vals: &[Value], rowid: u64) -> (k: Option<
    Vec<u8>,
>)
    requires
        col_types@.len() == vals@.len(),
    ensures
        k is Some <==> values_code(col_types@, views(vals@)) is Some && forall|i: int|
            0 <= i < vals@.len() ==> !is_torn((#[trigger] vals@[i])@),
        k matches Some(b) ==> b@ == values_code(col_types@, views(vals@))->0 + rowid_code(rowid),
{
    let mut i: usize = 0;
    while i < vals.len()
        invariant
            i <= vals@.len(),
            forall|j: int| 0 <= j < i ==> !is_torn((#[trigger] vals@[j])@),
        decreases vals@.len() - i,
    {
        if let Value::Text(s) = &vals[i] {
            if has_zero(s.as_str()) {
                assert(is_torn(vals@[i as int]@));
                return None;
            }
        }
        i += 1;
    }
    match encode_composite_value_prefix(col_types, vals) {
        None => None,
        Some(p) => {
            let mut k: Vec<u8> = p;
            append_rowid(&mut k, rowid);
            Some(k)
        },
    }
}

/// The row id at the end of a key.
pub fn extract_rowid(col_type: Type, key: &[u8]) -> (rowid: u64)
    requires
        col_type == Type::Integer || col_type == Type::Real || col_type == Type::Text,
        col_type != Type::Text ==> key@.len() >= 16,
        key@.len() >= 8,
    ensures
        col_type != Type::Text ==> rowid == from_be(key@.subrange(8, 16)),
        col_type == Type::Text ==> rowid == from_be(
            key@.subrange(key@.len() - 8, key@.len() as int),
        ),
{
    match col_type {
        Type::Text => read_be(key, key.len() - 8),
        _ => read_be(key, 8),
    }
}

// ---------------------------------------------------------------------------
// Laws
// ---------------------------------------------------------------------------

/// Keys of integers sort by the integer, then by the row id.
pub proof fn integer_keys_sort(a: i64, b: i64, r: u64, s: u64)
    requires
        a < b || (a == b && r < s),
    ensures
        bytes::lex_lt(integer_code(a) + rowid_code(r), integer_code(b) + rowid_code(s)),
{
    range_of_eight();
    if a < b {
        be_sorts(a + 0x8000_0000_0000_0000, b + 0x8000_0000_0000_0000, 8);
        parted_append(integer_code(a), integer_code(b), rowid_code(r), rowid_code(s));
    } else {
        be_sorts(r as int, s as int, 8);
        parted_behind(integer_code(a), rowid_code(r), rowid_code(s));
        parted_append(
            integer_code(a) + rowid_code(r),
            integer_code(a) + rowid_code(s),
            Seq::empty(),
            Seq::empty(),
        );
        assert(integer_code(a) + rowid_code(r) + Seq::<u8>::empty() =~= integer_code(a)
            + rowid_code(r));
        assert(integer_code(a) + rowid_code(s) + Seq::<u8>::empty() =~= integer_code(a)
            + rowid_code(s));
    }
}

/// Keys of doubles that are numbers sort by their size, then by the row id.
pub proof fn real_keys_sort(a: u64, b: u64, r: u64, s: u64)
    requires
        !value::is_nan(a),
        !value::is_nan(b),
        value::real_rank(a) < value::real_rank(b) || (a == b && r < s),
    ensures
        bytes::lex_lt(real_code(a) + rowid_code(r), real_code(b) + rowid_code(s)),
{
    range_of_eight();
    if a == b {
        be_sorts(r as int, s as int, 8);
        parted_behind(real_code(a), rowid_code(r), rowid_code(s));
        parted_append(
            real_code(a) + rowid_code(r),
            real_code(a) + rowid_code(s),
            Seq::empty(),
            Seq::empty(),
        );
        assert(real_code(a) + rowid_code(r) + Seq::<u8>::empty() =~= real_code(a) + rowid_code(r));
        assert(real_code(a) + rowid_code(s) + Seq::<u8>::empty() =~= real_code(a) + rowid_code(s));
    } else {
        be_sorts(real_number(a), real_number(b), 8);
        parted_append(real_code(a), real_code(b), rowid_code(r), rowid_code(s));
    }
}

/// Texts without zero bytes part before their terminators end.
proof fn texts_part(a: Seq<char>, b: Seq<char>)
    requires
        no_zero(a),
        no_zero(b),
        bytes::lex_lt(vstd::utf8::encode_utf8(a), vstd::utf8::encode_utf8(b)),
    ensures
        parted_early(text_code(a), text_code(b)),
{
    let x = vstd::utf8::encode_utf8(a);
    let y = vstd::utf8::encode_utf8(b);
    let i = choose|i: int| bytes::lex_at(x, y, i);
    if i == x.len() {
        assert(y.contains(y[i]));
    }
    assert(early_at(text_code(a), text_code(b), i));
}

/// Keys of texts sort by the bytes of the text, then by the row id.
pub proof fn text_keys_sort(a: Seq<char>, b: Seq<char>, r: u64, s: u64)
    requires
        no_zero(a),
        no_zero(b),
        bytes::lex_lt(vstd::utf8::encode_utf8(a), vstd::utf8::encode_utf8(b)) || (a == b && r < s),
    ensures
        bytes::lex_lt(text_code(a) + rowid_code(r), text_code(b) + rowid_code(s)),
{
    range_of_eight();
    if a == b && r < s {
        be_sorts(r as int, s as int, 8);
        parted_behind(text_code(a), rowid_code(r), rowid_code(s));
        parted_append(
            text_code(a) + rowid_code(r),
            text_code(a) + rowid_code(s),
            Seq::empty(),
            Seq::empty(),
        );
        assert(text_code(a) + rowid_code(r) + Seq::<u8>::empty() =~= text_code(a) + rowid_code(r));
        assert(text_code(a) + rowid_code(s) + Seq::<u8>::empty() =~= text_code(a) + rowid_code(s));
    } else {
        texts_part(a, b);
        parted_append(text_code(a), text_code(b), rowid_code(r), rowid_code(s));
    }
}

/// Of two values of one column, the first sorts before the second.
pub open spec fn sorts_before(t: Type, a: ValueView, b: ValueView) -> bool {
    match (t, a, b) {
        (Type::Integer, ValueView::Integer(x), ValueView::Integer(y)) => x < y,
        (Type::Real, ValueView::Real(x), ValueView::Real(y)) => {
            &&& !value::is_nan(x)
            &&& !value::is_nan(y)
            &&& value::real_rank(x) < value::real_rank(y)
        },
        (Type::Text, ValueView::Text(x), ValueView::Text(y)) => {
            &&& no_zero(x)
            &&& no_zero(y)
            &&& bytes::lex_lt(vstd::utf8::encode_utf8(x), vstd::utf8::encode_utf8(y))
        },
        _ => false,
    }
}

proof fn codes_part(t: Type, a: ValueView, b: ValueView)
    requires
        sorts_before(t, a, b),
    ensures
        value_code(t, a) is Some,
        value_code(t, b) is Some,
        parted_early(value_code(t, a)->0, value_code(t, b)->0),
{
    range_of_eight();
    match (t, a, b) {
        (Type::Integer, ValueView::Integer(x), ValueView::Integer(y)) => {
            be_sorts(x + 0x8000_0000_0000_0000, y + 0x8000_0000_0000_0000, 8);
        },
        (Type::Real, ValueView::Real(x), ValueView::Real(y)) => {
            be_sorts(real_number(x), real_number(y), 8);
        },
        (Type::Text, ValueView::Text(x), ValueView::Text(y)) => {
            texts_part(x, y);
        },
        _ => {},
    }
}

/// Keys of several values sort by the first column in which they differ.
pub proof fn composite_keys_sort(
    ts: Seq<Type>,
    a: Seq<ValueView>,
    b: Seq<ValueView>,
    i: int,
    r: u64,
    s: u64,
)
    requires
        ts.len() == a.len() == b.len(),
        0 <= i < ts.len(),
        forall|j: int| 0 <= j < i ==> a[j] == b[j],
        sorts_before(ts[i], a[i], b[i]),
        values_code(ts, a) is Some,
        values_code(ts, b) is Some,
    ensures
        bytes::lex_lt(
            values_code(ts, a)->0 + rowid_code(r),
            values_code(ts, b)->0 + rowid_code(s),
        ),
{
    composite_part(ts, a, b, i);
    parted_append(values_code(ts, a)->0, values_code(ts, b)->0, rowid_code(r), rowid_code(s));
}

proof fn composite_part(ts: Seq<Type>, a: Seq<ValueView>, b: Seq<ValueView>, i: int)
    requires
        ts.len() == a.len() == b.len(),
        0 <= i < ts.len(),
        forall|j: int| 0 <= j < i ==> a[j] == b[j],
        sorts_before(ts[i], a[i], b[i]),
        values_code(ts, a) is Some,
        values_code(ts, b) is Some,
    ensures
        parted_early(values_code(ts, a)->0, values_code(ts, b)->0),
    decreases ts.len(),
{
    let n = ts.len() - 1;
    let d = ts.drop_last();
    let x = a.take(n);
    let y = b.take(n);
    if i < n {
        composite_part(d, x, y, i);
        parted_append(
            values_code(d, x)->0,
            values_code(d, y)->0,
            value_code(ts.last(), a[n])->0,
            value_code(ts.last(), b[n])->0,
        );
    } else {
        assert(x =~= y);
        codes_part(ts[i], a[i], b[i]);
        parted_behind(values_code(d, x)->0, value_code(ts[i], a[i])->0, value_code(ts[i], b[i])->0);
    }
}

/// Keys of several equal values sort by the row id.
pub proof fn composite_keys_tie(ts: Seq<Type>, a: Seq<ValueView>, r: u64, s: u64)
    requires
        values_code(ts, a) is Some,
        r < s,
    ensures
        bytes::lex_lt(
            values_code(ts, a)->0 + rowid_code(r),
            values_code(ts, a)->0 + rowid_code(s),
        ),
{
    range_of_eight();
    let c = values_code(ts, a)->0;
    be_sorts(r as int, s as int, 8);
    parted_behind(c, rowid_code(r), rowid_code(s));
    parted_append(c + rowid_code(r), c + rowid_code(s), Seq::empty(), Seq::empty());
    assert(c + rowid_code(r) + Seq::<u8>::empty() =~= c + rowid_code(r));
    assert(c + rowid_code(s) + Seq::<u8>::empty() =~= c + rowid_code(s));
}

/// The row id of a key is read back from it.
pub proof fn rowid_round_trip(t: Type, v: ValueView, rowid: u64)
    requires
        key_code(t, v, rowid) is Some,
    ensures
        ({
            let key = key_code(t, v, rowid)->0;
            &&& key.len() >= 9
            &&& from_be(key.subrange(key.len() - 8, key.len() as int)) == rowid
            &&& t != Type::Text ==> key.len() == 16 && key.subrange(8, 16) == key.subrange(
                key.len() - 8,
                key.len() as int,
            )
        }),
{
    let code = value_code(t, v)->0;
    let key = code + rowid_code(rowid);
    range_of_eight();
    be_round_trip(rowid as int, 8);
    assert(key.subrange(key.len() - 8, key.len() as int) =~= rowid_code(rowid));
    match v {
        ValueView::Integer(i) => {
            be_len(i + 0x8000_0000_0000_0000, 8);
            be_len(real_number(value::integer_as_real(i) as u64), 8);
        },
        ValueView::Real(r) => {
            be_len(real_number(r), 8);
            be_len((value::real_as_integer(r) as i64) + 0x8000_0000_0000_0000, 8);
        },
        _ => {},
    }
}

/// A key begins with the prefix of a text if and only if it is a key of this very
/// text.
pub proof fn text_prefix_matches(a: Seq<char>, b: Seq<char>, rowid: u64)
    requires
        no_zero(a),
        no_zero(b),
    ensures
        text_code(a).is_prefix_of(text_code(b) + rowid_code(rowid)) <==> a == b,
{
    let x = vstd::utf8::encode_utf8(a);
    let y = vstd::utf8::encode_utf8(b);
    let key = text_code(b) + rowid_code(rowid);
    if a == b {
        assert(text_code(a) =~= key.subrange(0, text_code(a).len() as int));
    }
    if text_code(a).is_prefix_of(key) {
        assert(forall|i: int| 0 <= i < text_code(a).len() ==> text_code(a)[i] == key[i]);
        if x.len() < y.len() {
            assert(text_code(a)[x.len() as int] == key[x.len() as int]);
            assert(y.contains(y[x.len() as int]));
        } else if y.len() < x.len() {
            assert(text_code(a)[y.len() as int] == key[y.len() as int]);
            assert(x.contains(x[y.len() as int]));
        }
        assert(x =~= y) by {
            assert forall|i: int| 0 <= i < x.len() implies x[i] == y[i] by {
                assert(text_code(a)[i] == key[i]);
            }
        }
        value::encode_utf8_injective(a, b);
    }
}

/// A key begins with the prefix of a double if and only if it is a key of the same bits.
pub proof fn real_prefix_matches(a: u64, b: u64, rowid: u64)
    ensures
        real_code(a).is_prefix_of(real_code(b) + rowid_code(rowid)) <==> a == b,
{
    range_of_eight();
    be_round_trip(real_number(a), 8);
    be_round_trip(real_number(b), 8);
    let key = real_code(b) + rowid_code(rowid);
    assert(key.subrange(0, 8) =~= real_code(b));
}

/// A key begins with the prefix of an integer if and only if it is a key of this
/// very integer.
pub proof fn integer_prefix_matches(a: i64, b: i64, rowid: u64)
    ensures
        integer_code(a).is_prefix_of(integer_code(b) + rowid_code(rowid)) <==> a == b,
{
    range_of_eight();
    be_round_trip(a + 0x8000_0000_0000_0000, 8);
    be_round_trip(b + 0x8000_0000_0000_0000, 8);
    let key = integer_code(b) + rowid_code(rowid);
    assert(key.subrange(0, 8) =~= integer_code(b));
}

}
