//! Dynamically typed values and column definitions.
//!
//! A real number is held as the bits of an IEEE 754 double.

use crate::bytes;
use crate::bytes::{bytes_equal, bytes_less, copy_slice};
use std::cmp::Ordering;
use vstd::prelude::*;

verus! {

/// Column data types.
#[derive(Debug, Clone, Copy, PartialEq, Eq, Structural)]
pub enum Type {
    Text,
    Integer,
    Real,
    Blob,
    Boolean,
}

/// A dynamically typed value.
#[derive(Debug, PartialEq)]
pub enum Value {
    Null,
    Text(String),
    Integer(i64),
    /// The bits of an IEEE 754 double.
    Real(u64),
    Blob(Vec<u8>),
    Boolean(bool),
}

/// What a [`Value`] holds.
#[verifier::ext_equal]
pub enum ValueView {
    Null,
    Text(Seq<char>),
    Integer(i64),
    Real(u64),
    Blob(Seq<u8>),
    Boolean(bool),
}

impl View for Value {
    type V = ValueView;

    open spec fn view(&self) -> ValueView {
        match self {
            Value::Null => ValueView::Null,
            Value::Text(s) => ValueView::Text(s@),
            Value::Integer(i) => ValueView::Integer(*i),
            Value::Real(r) => ValueView::Real(*r),
            Value::Blob(b) => ValueView::Blob(b@),
            Value::Boolean(b) => ValueView::Boolean(*b),
        }
    }
}

impl Clone for Value {
    fn clone(&self) -> (r: Value)
        ensures
            r@ == self@,
    {
        match self {
            Value::Null => Value::Null,
            Value::Text(s) => Value::Text(s.clone()),
            Value::Integer(i) => Value::Integer(*i),
            Value::Real(r) => Value::Real(*r),
            Value::Blob(b) => Value::Blob(copy_slice(b.as_slice())),
            Value::Boolean(b) => Value::Boolean(*b),
        }
    }
}

/// The type of a value; null has none.
pub open spec fn type_of(v: ValueView) -> Option<Type> {
    match v {
        ValueView::Null => None,
        ValueView::Text(_) => Some(Type::Text),
        ValueView::Integer(_) => Some(Type::Integer),
        ValueView::Real(_) => Some(Type::Real),
        ValueView::Blob(_) => Some(Type::Blob),
        ValueView::Boolean(_) => Some(Type::Boolean),
    }
}

/// A double with these bits is not a number.
pub open spec fn is_nan(bits: u64) -> bool {
    bits % 0x8000_0000_0000_0000 > 0x7FF0_0000_0000_0000
}

/// Doubles that are numbers are ordered as these integers: the magnitude bits,
/// negated below zero. Both zeroes are 0.
pub open spec fn real_rank(bits: u64) -> int {
    if bits < 0x8000_0000_0000_0000 {
        bits as int
    } else {
        0x8000_0000_0000_0000 - bits
    }
}

/// Two to the power of `n`.
pub open spec fn two_to(n: nat) -> nat
    decreases n,
{
    if n == 0 {
        1
    } else {
        2 * two_to((n - 1) as nat)
    }
}

/// The position of the highest bit of `m`.
pub open spec fn high_bit(m: nat) -> nat
    decreases m,
{
    if m < 2 {
        0
    } else {
        1 + high_bit(m / 2)
    }
}

/// `m / d` to the nearest integer, ties to even.
pub open spec fn round_even(m: nat, d: nat) -> nat {
    if 2 * (m % d) > d || (2 * (m % d) == d && (m / d) % 2 == 1) {
        m / d + 1
    } else {
        m / d
    }
}

/// The 53-bit significand of the double nearest to `m`.
pub open spec fn significand(m: nat) -> nat {
    let e = high_bit(m);
    if e <= 52 {
        m * two_to((52 - e) as nat)
    } else {
        round_even(m, two_to((e - 52) as nat))
    }
}

/// The bits of the double nearest to `m`, ties to even.
pub open spec fn magnitude_bits(m: nat) -> int {
    if m == 0 {
        0
    } else {
        (high_bit(m) as int + 1022) * 0x10_0000_0000_0000 + significand(m)
    }
}

/// The bits of the double nearest to an integer.
pub open spec fn integer_as_real(i: i64) -> int {
    if i >= 0 {
        magnitude_bits(i as nat)
    } else {
        0x8000_0000_0000_0000 + magnitude_bits(-i as nat)
    }
}

/// Where an integer stands among the doubles.
pub open spec fn integer_rank(i: i64) -> int {
    if i >= 0 {
        magnitude_bits(i as nat)
    } else {
        -magnitude_bits(-i as nat)
    }
}

/// The bits of an ordered pair as a three-way result.
pub open spec fn three_way(less: bool, equal: bool) -> Ordering {
    if less {
        Ordering::Less
    } else if equal {
        Ordering::Equal
    } else {
        Ordering::Greater
    }
}

/// How two values compare: null first, numbers by size with NaN last, text and
/// blobs byte by byte, false before true. Other types do not compare.
pub open spec fn order_of(a: ValueView, b: ValueView) -> Option<Ordering> {
    match (a, b) {
        (ValueView::Null, ValueView::Null) => Some(Ordering::Equal),
        (ValueView::Null, _) => Some(Ordering::Less),
        (_, ValueView::Null) => Some(Ordering::Greater),
        (ValueView::Integer(x), ValueView::Integer(y)) => Some(three_way(x < y, x == y)),
        (ValueView::Real(x), ValueView::Real(y)) => Some(
            if is_nan(x) && is_nan(y) {
                Ordering::Equal
            } else if is_nan(x) {
                Ordering::Greater
            } else if is_nan(y) {
                Ordering::Less
            } else {
                three_way(real_rank(x) < real_rank(y), real_rank(x) == real_rank(y))
            },
        ),
        (ValueView::Text(x), ValueView::Text(y)) => Some(
            three_way(bytes::lex_lt(vstd::utf8::encode_utf8(x), vstd::utf8::encode_utf8(y)), x == y),
        ),
        (ValueView::Boolean(x), ValueView::Boolean(y)) => Some(three_way(!x && y, x == y)),
        (ValueView::Blob(x), ValueView::Blob(y)) => Some(three_way(bytes::lex_lt(x, y), x == y)),
        (ValueView::Integer(x), ValueView::Real(y)) => Some(
            if is_nan(y) {
                Ordering::Less
            } else {
                three_way(integer_rank(x) < real_rank(y), integer_rank(x) == real_rank(y))
            },
        ),
        (ValueView::Real(x), ValueView::Integer(y)) => Some(
            if is_nan(x) {
                Ordering::Greater
            } else {
                three_way(real_rank(x) < integer_rank(y), real_rank(x) == integer_rank(y))
            },
        ),
        _ => None,
    }
}

/// A double as an integer: towards zero, the nearest bound where it does not fit,
/// and 0 where it is not a number.
pub open spec fn real_as_integer(bits: u64) -> int {
    let e = (bits as int / 0x10_0000_0000_0000) % 2048;
    let m = 0x10_0000_0000_0000 + bits as int % 0x10_0000_0000_0000;
    let size: int = if is_nan(bits) || e < 1023 {
        0
    } else if e >= 1086 {
        0x8000_0000_0000_0000
    } else if e >= 1075 {
        m * two_to((e - 1075) as nat)
    } else {
        m / two_to((1075 - e) as nat) as int
    };
    if bits >= 0x8000_0000_0000_0000 {
        -size
    } else if size >= 0x8000_0000_0000_0000 {
        i64::MAX as int
    } else {
        size
    }
}

proof fn two_to_bounds(n: nat)
    ensures
        n <= 10 ==> two_to(n) <= 1024,
        n <= 53 ==> two_to(n) <= 0x20_0000_0000_0000,
        n >= 52 ==> two_to(n) >= 0x10_0000_0000_0000,
        two_to(52) == 0x10_0000_0000_0000,
        two_to(n) >= 1,
    decreases n,
{
    two_to_small(n);
    two_to_large();
    if n <= 53 {
        two_to_monotone(n, 53);
    }
    if n >= 52 {
        two_to_monotone(52, n);
    }
}

proof fn two_to_large()
    ensures
        two_to(52) == 0x10_0000_0000_0000,
        two_to(53) == 0x20_0000_0000_0000,
{
    assert(two_to(13) == 0x2000) by {
        reveal_with_fuel(two_to, 14);
    }
    two_to_split(13, 13);
    two_to_split(26, 26);
    assert(0x2000nat * 0x2000 == 0x400_0000) by (nonlinear_arith);
    assert(0x400_0000nat * 0x400_0000 == 0x10_0000_0000_0000) by (nonlinear_arith);
    assert(two_to(53) == 2 * two_to(52));
}

proof fn two_to_small(n: nat)
    ensures
        n <= 10 ==> two_to(n) <= 1024,
        two_to(n) >= 1,
    decreases n,
{
    reveal_with_fuel(two_to, 11);
    if n > 0 {
        two_to_small((n - 1) as nat);
    }
}

proof fn two_to_monotone(a: nat, b: nat)
    requires
        a <= b,
    ensures
        two_to(a) <= two_to(b),
    decreases b,
{
    if a < b {
        two_to_monotone(a, (b - 1) as nat);
    }
}

pub proof fn high_bit_bounds(m: nat)
    requires
        m >= 1,
    ensures
        two_to(high_bit(m)) <= m < 2 * two_to(high_bit(m)),
    decreases m,
{
    if m >= 2 {
        high_bit_bounds(m / 2);
    }
}

/// The bits of the double nearest to `m`.
fn real_bits_of(m: u64) -> (b: u64)
    requires
        m <= 0x8000_0000_0000_0000,
    ensures
        b == magnitude_bits(m as nat),
        b <= 0x7FF0_0000_0000_0000,
{
    if m == 0 {
        return 0;
    }
    proof {
        high_bit_bounds(m as nat);
        assert(two_to(64) == 0x1_0000_0000_0000_0000) by {
            reveal_with_fuel(two_to, 65);
        }
        if high_bit(m as nat) >= 64 {
            two_to_monotone(64, high_bit(m as nat));
        }
    }
    let mut e: u64 = 0;
    let mut x: u64 = m;
    while x >= 2
        invariant
            1 <= x <= m <= 0x8000_0000_0000_0000,
            e + high_bit(x as nat) == high_bit(m as nat) < 64,
        decreases x,
    {
        x = x / 2;
        e = e + 1;
    }
    let ghost h = high_bit(m as nat);
    assert(e == h);
    if e <= 52 {
        let mut s: u64 = m;
        let mut i: u64 = e;
        proof {
            two_to_bounds(52);
            assert(two_to(0) == 1);
            assert(m as nat * 1 == m);
            two_to_monotone(h, 52);
        }
        while i < 52
            invariant
                e == h <= i <= 52,
                s == m as nat * two_to((i - e) as nat),
                two_to(i as nat) <= s < 2 * two_to(i as nat),
                two_to(52) == 0x10_0000_0000_0000,
            decreases 52 - i,
        {
            proof {
                two_to_monotone(i as nat, 52);
                let d = two_to((i - e) as nat);
                assert(2 * (m as nat * d) == m as nat * (2 * d)) by (nonlinear_arith);
            }
            s = s * 2;
            i = i + 1;
        }
        assert(s < 0x20_0000_0000_0000);
        (e + 1022) * 0x10_0000_0000_0000 + s
    } else {
        let mut d: u64 = 1;
        let mut i: u64 = 52;
        while i < e
            invariant
                52 <= i <= e < 64,
                d == two_to((i - 52) as nat),
                d <= two_to(11),
                two_to(11) == 2048,
            decreases e - i,
        {
            proof {
                two_to_monotone((i + 1 - 52) as nat, 11);
            }
            d = d * 2;
            i = i + 1;
        }
        let q: u64 = m / d;
        let r: u64 = m % d;
        proof {
            // m < 2^(e+1) = 2^53 * d
            two_to_split(53, (e - 52) as nat);
            two_to_bounds(53);
            assert(two_to(53) == 0x20_0000_0000_0000) by {
                reveal_with_fuel(two_to, 54);
            }
            assert(2 * two_to(h) == two_to(h + 1));
            assert(q < 0x20_0000_0000_0000) by (nonlinear_arith)
                requires
                    q == m / d,
                    m < 0x20_0000_0000_0000 * d,
                    d > 0,
            ;
        }
        let s: u64 = if 2 * r > d || (2 * r == d && q % 2 == 1) {
            q + 1
        } else {
            q
        };
        (e + 1022) * 0x10_0000_0000_0000 + s
    }
}

proof fn two_to_split(a: nat, b: nat)
    ensures
        two_to(a + b) == two_to(a) * two_to(b),
    decreases b,
{
    if b == 0 {
        assert(two_to(a) * 1 == two_to(a));
    } else {
        two_to_split(a, (b - 1) as nat);
        let x = two_to(a);
        let y = two_to((b - 1) as nat);
        assert(2 * (x * y) == x * (2 * y)) by (nonlinear_arith);
        assert((a + b - 1) as nat == a + (b - 1) as nat);
    }
}

/// The magnitude of an integer.
fn magnitude(i: i64) -> (m: u64)
    ensures
        m == if i >= 0 {
            i as int
        } else {
            -i
        },
{
    if i >= 0 {
        i as u64
    } else {
        (-(i as i128)) as u64
    }
}

/// The bits of the double nearest to an integer, ties to even.
pub fn real_of_integer(i: i64) -> (b: u64)
    ensures
        b == integer_as_real(i),
        !is_nan(b),
        real_rank(b) == integer_rank(i),
{
    let m: u64 = magnitude(i);
    let b: u64 = real_bits_of(m);
    if i >= 0 {
        b
    } else {
        0x8000_0000_0000_0000 + b
    }
}

/// A double as an integer.
pub fn integer_of_real(bits: u64) -> (i: i64)
    ensures
        i == real_as_integer(bits),
{
    let e: u64 = (bits / 0x10_0000_0000_0000) % 2048;
    let m: u64 = 0x10_0000_0000_0000 + bits % 0x10_0000_0000_0000;
    let size: u64 = if real_is_nan(bits) || e < 1023 {
        0
    } else if e >= 1086 {
        0x8000_0000_0000_0000
    } else if e >= 1075 {
        doubled(m, e - 1075)
    } else {
        halved(m, 1075 - e)
    };
    if bits >= 0x8000_0000_0000_0000 {
        if size >= 0x8000_0000_0000_0000 {
            i64::MIN
        } else {
            -(size as i64)
        }
    } else if size >= 0x8000_0000_0000_0000 {
        i64::MAX
    } else {
        size as i64
    }
}

/// `m` doubled `n` times.
fn doubled(m: u64, n: u64) -> (r: u64)
    requires
        m < 0x20_0000_0000_0000,
        n <= 10,
    ensures
        r == m * two_to(n as nat),
        r < 0x8000_0000_0000_0000,
{
    let mut r: u64 = m;
    let mut i: u64 = 0;
    proof {
        two_to_small(0);
        assert(two_to(0) == 1);
        assert(m * 1 == m);
    }
    while i < n
        invariant
            i <= n <= 10,
            m < 0x20_0000_0000_0000,
            r == m * two_to(i as nat),
            two_to(i as nat) <= 1024,
            r <= m * 1024,
        decreases n - i,
    {
        proof {
            two_to_small((i + 1) as nat);
            let t = two_to(i as nat);
            assert(two_to((i + 1) as nat) == 2 * t);
            assert(m * (2 * t) == 2 * (m * t)) by (nonlinear_arith);
            assert(m * (2 * t) <= m * 1024) by (nonlinear_arith)
                requires
                    2 * t <= 1024,
                    m >= 0,
            ;
        }
        r = r * 2;
        i += 1;
    }
    r
}

/// `m` halved `n` times.
fn halved(m: u64, n: u64) -> (r: u64)
    requires
        m < 0x20_0000_0000_0000,
        n <= 52,
    ensures
        r == m as int / two_to(n as nat) as int,
        r < 0x8000_0000_0000_0000,
{
    let mut r: u64 = m;
    let mut i: u64 = 0;
    proof {
        assert(m as int / 1int == m);
    }
    while i < n
        invariant
            i <= n <= 52,
            r == m as int / two_to(i as nat) as int,
            r <= m < 0x20_0000_0000_0000,
        decreases n - i,
    {
        proof {
            let t = two_to(i as nat) as int;
            two_to_small(i as nat);
            assert(two_to((i + 1) as nat) == 2 * t);
            vstd::arithmetic::div_mod::lemma_div_denominator(m as int, t, 2);
            assert(t * 2 == 2 * t);
        }
        r = r / 2;
        i += 1;
    }
    r
}

/// Whether a double is not a number.
pub fn real_is_nan(bits: u64) -> (r: bool)
    ensures
        r == is_nan(bits),
{
    bits % 0x8000_0000_0000_0000 > 0x7FF0_0000_0000_0000
}

/// The rank of a double, by which numbers are ordered.
fn rank_of_real(bits: u64) -> (r: i128)
    ensures
        r == real_rank(bits),
{
    if bits < 0x8000_0000_0000_0000 {
        bits as i128
    } else {
        0x8000_0000_0000_0000 - bits as i128
    }
}

/// The three-way result for two ranks.
fn compare_ranks(a: i128, b: i128) -> (o: Ordering)
    ensures
        o == three_way(a < b, a == b),
{
    if a < b {
        Ordering::Less
    } else if a == b {
        Ordering::Equal
    } else {
        Ordering::Greater
    }
}

/// The three-way result for two byte strings.
fn compare_byte_strings(a: &[u8], b: &[u8]) -> (o: Ordering)
    ensures
        o == three_way(bytes::lex_lt(a@, b@), a@ == b@),
{
    if bytes_less(a, b) {
        Ordering::Less
    } else if bytes_equal(a, b) {
        Ordering::Equal
    } else {
        Ordering::Greater
    }
}

/// Strings with the same encoding are the same.
pub proof fn encode_utf8_injective(a: Seq<char>, b: Seq<char>)
    ensures
        vstd::utf8::encode_utf8(a) == vstd::utf8::encode_utf8(b) <==> a == b,
{
    broadcast use vstd::utf8::encode_utf8_decode_utf8;

    vstd::utf8::encode_utf8_decode_utf8(a);
    vstd::utf8::encode_utf8_decode_utf8(b);
}

/// Whether two strings are the same.
pub fn same_text(a: &str, b: &str) -> (r: bool)
    ensures
        r == (a@ == b@),
{
    proof {
        encode_utf8_injective(a@, b@);
    }
    bytes_equal(a.as_bytes(), b.as_bytes())
}

impl Value {
    /// The type of the value; null has none.
    pub fn value_type(&self) -> (t: Option<Type>)
        ensures
            t == type_of(self@),
    {
        match self {
            Value::Null => None,
            Value::Text(_) => Some(Type::Text),
            Value::Integer(_) => Some(Type::Integer),
            Value::Real(_) => Some(Type::Real),
            Value::Blob(_) => Some(Type::Blob),
            Value::Boolean(_) => Some(Type::Boolean),
        }
    }

    /// Whether the value is null.
    pub fn is_null(&self) -> (r: bool)
        ensures
            r == (self@ == ValueView::Null),
    {
        match self {
            Value::Null => true,
            _ => false,
        }
    }

    /// Compares two values. `None` if their types do not compare.
    pub fn compare(&self, other: &Value) -> (o: Option<Ordering>)
        ensures
            o == order_of(self@, other@),
    {
        match (self, other) {
            (Value::Null, Value::Null) => Some(Ordering::Equal),
            (Value::Null, _) => Some(Ordering::Less),
            (_, Value::Null) => Some(Ordering::Greater),
            (Value::Integer(a), Value::Integer(b)) => Some(
                if *a < *b {
                    Ordering::Less
                } else if *a == *b {
                    Ordering::Equal
                } else {
                    Ordering::Greater
                },
            ),
            (Value::Real(a), Value::Real(b)) => {
                let an: bool = real_is_nan(*a);
                let bn: bool = real_is_nan(*b);
                Some(
                    if an && bn {
                        Ordering::Equal
                    } else if an {
                        Ordering::Greater
                    } else if bn {
                        Ordering::Less
                    } else {
                        compare_ranks(rank_of_real(*a), rank_of_real(*b))
                    },
                )
            },
            (Value::Text(a), Value::Text(b)) => {
                proof {
                    encode_utf8_injective(a@, b@);
                }
                Some(compare_byte_strings(a.as_str().as_bytes(), b.as_str().as_bytes()))
            },
            (Value::Boolean(a), Value::Boolean(b)) => Some(
                if !*a && *b {
                    Ordering::Less
                } else if *a == *b {
                    Ordering::Equal
                } else {
                    Ordering::Greater
                },
            ),
            (Value::Blob(a), Value::Blob(b)) => Some(
                compare_byte_strings(a.as_slice(), b.as_slice()),
            ),
            (Value::Integer(a), Value::Real(b)) => {
                if real_is_nan(*b) {
                    Some(Ordering::Less)
                } else {
                    Some(compare_ranks(rank_of_real(real_of_integer(*a)), rank_of_real(*b)))
                }
            },
            (Value::Real(a), Value::Integer(b)) => {
                if real_is_nan(*a) {
                    Some(Ordering::Greater)
                } else {
                    Some(compare_ranks(rank_of_real(*a), rank_of_real(real_of_integer(*b))))
                }
            },
            _ => None,
        }
    }
}

/// The opposite three-way result.
pub open spec fn flipped(o: Option<Ordering>) -> Option<Ordering> {
    match o {
        Some(Ordering::Less) => Some(Ordering::Greater),
        Some(Ordering::Greater) => Some(Ordering::Less),
        _ => o,
    }
}

/// Comparing the other way round gives the opposite result.
pub proof fn order_flips(a: ValueView, b: ValueView)
    ensures
        order_of(b, a) == flipped(order_of(a, b)),
{
    match (a, b) {
        (ValueView::Text(x), ValueView::Text(y)) => {
            let p = vstd::utf8::encode_utf8(x);
            let q = vstd::utf8::encode_utf8(y);
            encode_utf8_injective(x, y);
            bytes::lex_total(p, q);
            bytes::lex_irreflexive(p);
            if bytes::lex_lt(p, q) {
                bytes::lex_asymmetric(p, q);
            }
            if bytes::lex_lt(q, p) {
                bytes::lex_asymmetric(q, p);
            }
        },
        (ValueView::Blob(p), ValueView::Blob(q)) => {
            bytes::lex_total(p, q);
            bytes::lex_irreflexive(p);
            if bytes::lex_lt(p, q) {
                bytes::lex_asymmetric(p, q);
            }
            if bytes::lex_lt(q, p) {
                bytes::lex_asymmetric(q, p);
            }
        },
        _ => {},
    }
}

impl From<String> for Value {
    fn from(s: String) -> (v: Value) {
        Value::Text(s)
    }
}

impl vstd::std_specs::convert::FromSpecImpl<String> for Value {
    open spec fn obeys_from_spec() -> bool {
        true
    }

    open spec fn from_spec(s: String) -> Value {
        Value::Text(s)
    }
}

impl From<i64> for Value {
    fn from(i: i64) -> (v: Value) {
        Value::Integer(i)
    }
}

impl vstd::std_specs::convert::FromSpecImpl<i64> for Value {
    open spec fn obeys_from_spec() -> bool {
        true
    }

    open spec fn from_spec(i: i64) -> Value {
        Value::Integer(i)
    }
}

impl From<bool> for Value {
    fn from(b: bool) -> (v: Value) {
        Value::Boolean(b)
    }
}

impl vstd::std_specs::convert::FromSpecImpl<bool> for Value {
    open spec fn obeys_from_spec() -> bool {
        true
    }

    open spec fn from_spec(b: bool) -> Value {
        Value::Boolean(b)
    }
}

impl From<&str> for Value {
    fn from(s: &str) -> (v: Value)
        ensures
            v@ == ValueView::Text(s@),
    {
        Value::Text(s.to_owned())
    }
}

impl vstd::std_specs::convert::FromSpecImpl<&str> for Value {
    open spec fn obeys_from_spec() -> bool {
        false
    }

    open spec fn from_spec(s: &str) -> Value {
        Value::Null
    }
}

/// A column of a table.
#[derive(Debug)]
pub struct ColumnDef {
    pub name: String,
    pub col_type: Type,
    pub nullable: bool,
    pub unique: bool,
    /// Value returned for rows that predate this column (or that omit it
    /// on insert). `None` => such reads return `Value::Null`.
    pub default: Option<Value>,
    /// Tombstone: a dropped column keeps its slot (so later columns'
    /// `col_id`s don't shift) but is invisible to reads and finds. Its
    /// `col_id` is never reused.
    pub dropped: bool,
}

/// What a [`ColumnDef`] holds.
#[verifier::ext_equal]
pub struct ColumnView {
    pub name: Seq<char>,
    pub col_type: Type,
    pub nullable: bool,
    pub unique: bool,
    pub default: Option<ValueView>,
    pub dropped: bool,
}

impl View for ColumnDef {
    type V = ColumnView;

    open spec fn view(&self) -> ColumnView {
        ColumnView {
            name: self.name@,
            col_type: self.col_type,
            nullable: self.nullable,
            unique: self.unique,
            default: match self.default {
                None => None,
                Some(v) => Some(v@),
            },
            dropped: self.dropped,
        }
    }
}

impl Clone for ColumnDef {
    fn clone(&self) -> (r: ColumnDef)
        ensures
            r@ == self@,
    {
        ColumnDef {
            name: self.name.clone(),
            col_type: self.col_type,
            nullable: self.nullable,
            unique: self.unique,
            default: match &self.default {
                None => None,
                Some(v) => Some(v.clone()),
            },
            dropped: self.dropped,
        }
    }
}

impl ColumnDef {
    /// A nullable column without a default.
    pub fn new(name: &str, col_type: Type) -> (c: ColumnDef)
        ensures
            c@ == (ColumnView {
                name: name@,
                col_type,
                nullable: true,
                unique: false,
                default: None,
                dropped: false,
            }),
    {
        ColumnDef {
            name: name.to_owned(),
            col_type,
            nullable: true,
            unique: false,
            default: None,
            dropped: false,
        }
    }

    /// The same column, not nullable.
    pub fn not_null(self) -> (c: ColumnDef)
        ensures
            c@ == (ColumnView { nullable: false, ..self@ }),
    {
        let mut c = self;
        c.nullable = false;
        c
    }

    /// The same column, unique.
    pub fn unique(self) -> (c: ColumnDef)
        ensures
            c@ == (ColumnView { unique: true, ..self@ }),
    {
        let mut c = self;
        c.unique = true;
        c
    }

    /// The same column with a default.
    pub fn default(self, v: Value) -> (c: ColumnDef)
        ensures
            c@ == (ColumnView { default: Some(v@), ..self@ }),
    {
        let mut c = self;
        c.default = Some(v);
        c
    }
}

}
