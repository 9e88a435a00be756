//! What comparing values means: numbers go by size, texts and blobs by their first
//! difference, null comes first.

use crate::filter;
use crate::filter::FilterOp;
use crate::value;
use crate::value::{order_of, ValueView};
use std::cmp::Ordering;
use vstd::arithmetic::power2::{
    lemma_pow2_adds, lemma_pow2_pos, lemma_pow2_strictly_increases, lemma_pow2_unfold, pow2,
};
use vstd::prelude::*;

verus! {

// ---------------------------------------------------------------------------
// The size of a double
// ---------------------------------------------------------------------------

/// The size of a double from its bits without the sign, as a multiple of the
/// smallest double above zero.
pub open spec fn magnitude_units(a: int) -> int {
    let e = a / 0x10_0000_0000_0000;
    let f = a % 0x10_0000_0000_0000;
    if e == 0 {
        f
    } else {
        (0x10_0000_0000_0000 + f) * pow2((e - 1) as nat)
    }
}

/// A double as a multiple of the smallest one above zero, which is `2^-1074`.
pub open spec fn real_units(bits: u64) -> int {
    if bits < 0x8000_0000_0000_0000 {
        magnitude_units(bits as int)
    } else {
        -magnitude_units(bits - 0x8000_0000_0000_0000)
    }
}

/// How many times one holds the smallest double above zero.
pub open spec fn one_unit() -> int {
    pow2(1074) as int
}

/// The double is a number, and not infinite.
pub open spec fn is_finite(bits: u64) -> bool {
    bits as int % 0x8000_0000_0000_0000 < 0x7FF0_0000_0000_0000
}

/// The bits of the double that stands for an integer.
pub open spec fn nearest_real(i: i64) -> u64 {
    value::integer_as_real(i) as u64
}

proof fn magnitude_bounds(a: int)
    requires
        a >= 0,
    ensures
        ({
            let e = a / 0x10_0000_0000_0000;
            &&& e >= 0
            &&& 0 <= magnitude_units(a) < 0x10_0000_0000_0000 * pow2(e as nat)
            &&& e > 0 ==> magnitude_units(a) >= 0x10_0000_0000_0000 * pow2((e - 1) as nat)
        }),
{
    let e = a / 0x10_0000_0000_0000;
    let f = a % 0x10_0000_0000_0000;
    lemma_pow2_pos(e as nat);
    if e > 0 {
        let p = pow2((e - 1) as nat) as int;
        lemma_pow2_unfold(e as nat);
        lemma_pow2_pos((e - 1) as nat);
        assert((0x10_0000_0000_0000 + f) * p < 0x10_0000_0000_0000 * (2 * p)
            && (0x10_0000_0000_0000 + f) * p >= 0x10_0000_0000_0000 * p) by (nonlinear_arith)
            requires
                0 <= f < 0x10_0000_0000_0000,
                p > 0,
        ;
    } else {
        let p = pow2(e as nat) as int;
        assert(0x10_0000_0000_0000 <= 0x10_0000_0000_0000 * p) by (nonlinear_arith)
            requires
                p > 0,
        ;
    }
}

/// Larger bits stand for a larger size.
proof fn magnitude_ascends(a: int, b: int)
    requires
        0 <= a < b,
    ensures
        magnitude_units(a) < magnitude_units(b),
{
    let ea = a / 0x10_0000_0000_0000;
    let eb = b / 0x10_0000_0000_0000;
    let fa = a % 0x10_0000_0000_0000;
    let fb = b % 0x10_0000_0000_0000;
    magnitude_bounds(a);
    magnitude_bounds(b);
    assert(ea <= eb);
    if ea == eb {
        assert(fa < fb);
        if ea > 0 {
            let p = pow2((ea - 1) as nat) as int;
            lemma_pow2_pos((ea - 1) as nat);
            assert((0x10_0000_0000_0000 + fa) * p < (0x10_0000_0000_0000 + fb) * p)
                by (nonlinear_arith)
                requires
                    fa < fb,
                    p > 0,
            ;
        }
    } else {
        if ea < eb - 1 {
            lemma_pow2_strictly_increases(ea as nat, (eb - 1) as nat);
        }
        let p = pow2(ea as nat) as int;
        let q = pow2((eb - 1) as nat) as int;
        assert(0x10_0000_0000_0000 * p <= 0x10_0000_0000_0000 * q) by (nonlinear_arith)
            requires
                p <= q,
        ;
    }
}

/// Doubles rank as their sizes do.
proof fn rank_is_size(x: u64, y: u64)
    ensures
        value::real_rank(x) < value::real_rank(y) <==> real_units(x) < real_units(y),
        value::real_rank(x) == value::real_rank(y) <==> real_units(x) == real_units(y),
{
    let a: int = if x < 0x8000_0000_0000_0000 {
        x as int
    } else {
        x - 0x8000_0000_0000_0000
    };
    let b: int = if y < 0x8000_0000_0000_0000 {
        y as int
    } else {
        y - 0x8000_0000_0000_0000
    };
    magnitude_bounds(a);
    magnitude_bounds(b);
    if a < b {
        magnitude_ascends(a, b);
    } else if b < a {
        magnitude_ascends(b, a);
    }
    assert(magnitude_units(0) == 0);
    if 0 < a {
        magnitude_ascends(0, a);
    }
    if 0 < b {
        magnitude_ascends(0, b);
    }
}

proof fn finite_is_number(bits: u64)
    requires
        is_finite(bits),
    ensures
        !value::is_nan(bits),
{
}

/// Doubles that are finite compare by size.
pub proof fn reals_by_size(x: u64, y: u64)
    requires
        is_finite(x),
        is_finite(y),
    ensures
        order_of(ValueView::Real(x), ValueView::Real(y)) == Some(Ordering::Less) <==> real_units(x)
            < real_units(y),
        order_of(ValueView::Real(x), ValueView::Real(y)) == Some(Ordering::Equal) <==> real_units(x)
            == real_units(y),
        order_of(ValueView::Real(x), ValueView::Real(y)) == Some(Ordering::Greater) <==> real_units(
            x,
        ) > real_units(y),
{
    finite_is_number(x);
    finite_is_number(y);
    rank_is_size(x, y);
}

/// The infinite doubles lie outside all finite ones, and what is not a number comes
/// behind all numbers, where all of it is the same.
pub proof fn reals_at_the_ends(x: u64, nan: u64)
    requires
        is_finite(x),
        value::is_nan(nan),
    ensures
        order_of(ValueView::Real(x), ValueView::Real(0x7FF0_0000_0000_0000)) == Some(
            Ordering::Less,
        ),
        order_of(ValueView::Real(0xFFF0_0000_0000_0000), ValueView::Real(x)) == Some(
            Ordering::Less,
        ),
        order_of(ValueView::Real(x), ValueView::Real(nan)) == Some(Ordering::Less),
        order_of(ValueView::Real(0x7FF0_0000_0000_0000), ValueView::Real(nan)) == Some(
            Ordering::Less,
        ),
        forall|other: u64|
            value::is_nan(other) ==> #[trigger] order_of(
                ValueView::Real(nan),
                ValueView::Real(other),
            ) == Some(Ordering::Equal),
        forall|i: i64| #[trigger]
            order_of(ValueView::Integer(i), ValueView::Real(nan)) == Some(Ordering::Less),
{
}

/// Integers compare as integers.
pub proof fn integers_by_size(a: i64, b: i64)
    ensures
        order_of(ValueView::Integer(a), ValueView::Integer(b)) == Some(Ordering::Less) <==> a < b,
        order_of(ValueView::Integer(a), ValueView::Integer(b)) == Some(Ordering::Equal) <==> a == b,
        order_of(ValueView::Integer(a), ValueView::Integer(b)) == Some(Ordering::Greater) <==> a > b,
{
}

/// False comes before true.
pub proof fn false_before_true(a: bool, b: bool)
    ensures
        order_of(ValueView::Boolean(a), ValueView::Boolean(b)) == Some(Ordering::Less) <==> !a && b,
        order_of(ValueView::Boolean(a), ValueView::Boolean(b)) == Some(Ordering::Equal) <==> a == b,
        order_of(ValueView::Boolean(a), ValueView::Boolean(b)) == Some(Ordering::Greater) <==> a
            && !b,
{
}

/// Null equals null and comes before everything else.
pub proof fn null_first(x: ValueView)
    requires
        x != ValueView::Null,
    ensures
        order_of(ValueView::Null, ValueView::Null) == Some(Ordering::Equal),
        order_of(ValueView::Null, x) == Some(Ordering::Less),
        order_of(x, ValueView::Null) == Some(Ordering::Greater),
{
}

/// Values compare exactly if one is null, both are numbers, or both are of one type.
pub proof fn kinds_compare(a: ValueView, b: ValueView)
    ensures
        order_of(a, b) is Some <==> {
            ||| a is Null || b is Null
            ||| (a is Integer || a is Real) && (b is Integer || b is Real)
            ||| a is Text && b is Text
            ||| a is Blob && b is Blob
            ||| a is Boolean && b is Boolean
        },
{
}

/// The first byte in which two byte strings differ decides; what ends first comes first.
pub open spec fn earlier_bytes(p: Seq<u8>, q: Seq<u8>, i: int) -> bool {
    &&& 0 <= i <= p.len()
    &&& i < q.len()
    &&& p.take(i) == q.take(i)
    &&& i == p.len() || p[i] < q[i]
}

proof fn earlier_is_less(p: Seq<u8>, q: Seq<u8>, i: int)
    requires
        earlier_bytes(p, q, i),
    ensures
        crate::bytes::lex_lt(p, q),
        p != q,
{
    assert forall|j: int| 0 <= j < i implies p[j] == q[j] by {
        assert(p.take(i)[j] == q.take(i)[j]);
    }
    assert(crate::bytes::lex_at(p, q, i));
    crate::bytes::lex_irreflexive(p);
}

/// Blobs compare by the first byte in which they differ.
pub proof fn blobs_by_first_difference(p: Seq<u8>, q: Seq<u8>, i: int)
    ensures
        earlier_bytes(p, q, i) ==> order_of(ValueView::Blob(p), ValueView::Blob(q)) == Some(
            Ordering::Less,
        ) && order_of(ValueView::Blob(q), ValueView::Blob(p)) == Some(Ordering::Greater),
        order_of(ValueView::Blob(p), ValueView::Blob(q)) == Some(Ordering::Equal) <==> p == q,
{
    crate::bytes::lex_irreflexive(p);
    if earlier_bytes(p, q, i) {
        earlier_is_less(p, q, i);
        crate::bytes::lex_asymmetric(p, q);
    }
}

/// Texts compare by the first byte of their UTF-8 forms in which they differ.
pub proof fn texts_by_first_difference(a: Seq<char>, b: Seq<char>, i: int)
    ensures
        earlier_bytes(vstd::utf8::encode_utf8(a), vstd::utf8::encode_utf8(b), i) ==> order_of(
            ValueView::Text(a),
            ValueView::Text(b),
        ) == Some(Ordering::Less) && order_of(ValueView::Text(b), ValueView::Text(a)) == Some(
            Ordering::Greater,
        ),
        order_of(ValueView::Text(a), ValueView::Text(b)) == Some(Ordering::Equal) <==> a == b,
{
    let p = vstd::utf8::encode_utf8(a);
    let q = vstd::utf8::encode_utf8(b);
    value::encode_utf8_injective(a, b);
    crate::bytes::lex_irreflexive(p);
    if earlier_bytes(p, q, i) {
        earlier_is_less(p, q, i);
        crate::bytes::lex_asymmetric(p, q);
    }
}

// ---------------------------------------------------------------------------
// Integers among doubles
// ---------------------------------------------------------------------------

proof fn two_to_is_pow2(n: nat)
    ensures
        value::two_to(n) == pow2(n),
    decreases n,
{
    if n == 0 {
        vstd::arithmetic::power2::lemma2_to64();
    } else {
        two_to_is_pow2((n - 1) as nat);
        lemma_pow2_unfold(n);
    }
}

/// The units of a double that is given by its exponent and its 53 leading bits.
proof fn units_of_parts(h: nat, s: int)
    requires
        h <= 64,
        0x10_0000_0000_0000 <= s <= 0x20_0000_0000_0000,
    ensures
        magnitude_units((h + 1022) * 0x10_0000_0000_0000 + s) == s * pow2(h + 1022),
{
    let a = (h + 1022) * 0x10_0000_0000_0000 + s;
    if s < 0x20_0000_0000_0000 {
        assert(a / 0x10_0000_0000_0000 == h + 1023);
        assert(a % 0x10_0000_0000_0000 == s - 0x10_0000_0000_0000);
    } else {
        assert(a / 0x10_0000_0000_0000 == h + 1024);
        assert(a % 0x10_0000_0000_0000 == 0);
        lemma_pow2_unfold(h + 1023);
        let p = pow2(h + 1022) as int;
        assert(0x10_0000_0000_0000 * (2 * p) == 0x20_0000_0000_0000 * p) by (nonlinear_arith);
    }
}

proof fn rounded(m: nat, d: nat)
    requires
        d > 0,
    ensures
        ({
            let s = value::round_even(m, d) as int;
            &&& -(d as int) <= 2 * (s * d - m) <= d
            &&& m % d == 0 ==> s * d == m
        }),
{
    let q = (m / d) as int;
    let r = (m % d) as int;
    vstd::arithmetic::div_mod::lemma_fundamental_div_mod(m as int, d as int);
    assert(q * d == d * q) by (nonlinear_arith);
    assert((q + 1) * d == q * d + d) by (nonlinear_arith);
}

/// The double for a magnitude is exact up to `2^53`, and off by at most half a step above.
proof fn magnitude_near(m: nat, k: nat)
    requires
        0 < m <= pow2(k),
        m <= 0x8000_0000_0000_0000,
        53 <= k,
    ensures
        ({
            let u = magnitude_units(value::magnitude_bits(m));
            let step = pow2((k - 53) as nat) * one_unit();
            &&& -step <= 2 * (u - m * one_unit()) <= step
            &&& m <= 0x20_0000_0000_0000 ==> u == m * one_unit()
        }),
{
    let h = value::high_bit(m);
    let one = one_unit();
    value::high_bit_bounds(m);
    two_to_is_pow2(h);
    lemma_pow2_pos(h);
    lemma_pow2_pos(1074);
    lemma_pow2_pos((k - 53) as nat);
    vstd::arithmetic::power2::lemma2_to64();
    vstd::arithmetic::power2::lemma2_to64_rest();
    if h >= 64 {
        if h > 64 {
            lemma_pow2_strictly_increases(64, h);
        }
        assert(false);
    }
    if h > k {
        lemma_pow2_strictly_increases(k, h);
        assert(false);
    }
    let step = pow2((k - 53) as nat) as int * one;
    assert(step >= 0) by (nonlinear_arith)
        requires
            step == pow2((k - 53) as nat) as int * one,
            pow2((k - 53) as nat) as int > 0,
            one > 0,
    ;
    if h <= 52 {
        let c = pow2((52 - h) as nat) as int;
        two_to_is_pow2((52 - h) as nat);
        lemma_pow2_adds(h, (52 - h) as nat);
        lemma_pow2_pos((52 - h) as nat);
        let s = m * c;
        let b = pow2(h) as int;
        assert(b * c <= s && s < 2 * (b * c)) by (nonlinear_arith)
            requires
                s == m * c,
                b <= m < 2 * b,
                c > 0,
        ;
        units_of_parts(h, s);
        lemma_pow2_adds((52 - h) as nat, h + 1022);
        let w = pow2(h + 1022) as int;
        assert((m * c) * w == m * (c * w)) by (nonlinear_arith);
        assert((52 - h) as nat + (h + 1022) == 1074);
    } else {
        let d = pow2((h - 52) as nat);
        two_to_is_pow2((h - 52) as nat);
        lemma_pow2_pos((h - 52) as nat);
        let s = value::round_even(m, d) as int;
        rounded(m, d);
        lemma_pow2_adds(52, (h - 52) as nat);
        lemma_pow2_adds(53, (h - 52) as nat);
        lemma_pow2_unfold(h + 1);
        assert(0x10_0000_0000_0000 * d <= m < 0x20_0000_0000_0000 * d);
        assert(s >= 0x10_0000_0000_0000) by (nonlinear_arith)
            requires
                -(d as int) <= 2 * (s * d - m),
                0x10_0000_0000_0000 * d <= m,
                d > 0,
        ;
        assert(s <= 0x20_0000_0000_0000) by (nonlinear_arith)
            requires
                2 * (s * d - m) <= d,
                m < 0x20_0000_0000_0000 * d,
                d > 0,
        ;
        units_of_parts(h, s);
        lemma_pow2_adds((h - 52) as nat, 1074);
        assert((h - 52) as nat + 1074 == h + 1022);
        let dd = d as int;
        assert(s * (dd * one) == (s * dd) * one) by (nonlinear_arith);
        assert((s * dd) * one - m * one == (s * dd - m) * one) by (nonlinear_arith);
        let off = s * dd - m;
        if h == k {
            // Only the power itself is that large.
            assert(m == pow2(h));
            assert(m % d == 0) by {
                vstd::arithmetic::div_mod::lemma_mod_multiples_basic(0x10_0000_0000_0000, dd);
            }
            assert(0 * one == 0);
        } else {
            if h < k - 1 {
                lemma_pow2_strictly_increases((h - 52) as nat, (k - 53) as nat);
            }
            let t = pow2((k - 53) as nat) as int;
            assert(-(t * one) <= 2 * (off * one) <= t * one) by (nonlinear_arith)
                requires
                    -dd <= 2 * off <= dd,
                    dd <= t,
                    one > 0,
            ;
        }
        if m <= 0x20_0000_0000_0000 {
            if h > 53 {
                lemma_pow2_strictly_increases(53, h);
            }
            assert(h == 53 && m == pow2(53));
            assert(m % d == 0) by {
                vstd::arithmetic::div_mod::lemma_mod_multiples_basic(0x10_0000_0000_0000, dd);
            }
            assert(0 * one == 0);
        }
    }
}

/// The double for an integer is the integer itself up to `2^53` and its negative, and
/// beyond that off by at most half the distance of doubles of its size.
pub proof fn integer_becomes_nearest(i: i64, k: nat)
    requires
        53 <= k,
        -pow2(k) <= i <= pow2(k),
    ensures
        is_finite(nearest_real(i)),
        -0x20_0000_0000_0000 <= i <= 0x20_0000_0000_0000 ==> real_units(nearest_real(i)) == i
            * one_unit(),
        -(pow2((k - 53) as nat) * one_unit()) <= 2 * (real_units(nearest_real(i)) - i * one_unit())
            <= pow2((k - 53) as nat) * one_unit(),
{
    let m: nat = if i >= 0 {
        i as nat
    } else {
        (-i) as nat
    };
    let one = one_unit();
    lemma_pow2_pos((k - 53) as nat);
    lemma_pow2_pos(1074);
    if m == 0 {
        let t = pow2((k - 53) as nat) as int;
        assert(t * one >= 0) by (nonlinear_arith)
            requires
                t > 0,
                one > 0,
        ;
        assert(magnitude_units(0) == 0);
        assert(0 * one == 0);
    } else {
        magnitude_near(m, k);
        magnitude_small(m);
        let u = magnitude_units(value::magnitude_bits(m));
        assert(-(m * one) == (-m) * one) by (nonlinear_arith);
        assert(real_units(nearest_real(i)) == if i >= 0 {
            u
        } else {
            -u
        });
    }
}

/// The bits for a magnitude are those of a finite double.
proof fn magnitude_small(m: nat)
    requires
        0 < m <= 0x8000_0000_0000_0000,
    ensures
        0 <= value::magnitude_bits(m) < 0x7FF0_0000_0000_0000,
{
    let h = value::high_bit(m);
    value::high_bit_bounds(m);
    two_to_is_pow2(h);
    vstd::arithmetic::power2::lemma2_to64();
    vstd::arithmetic::power2::lemma2_to64_rest();
    if h >= 64 {
        if h > 64 {
            lemma_pow2_strictly_increases(64, h);
        }
        assert(false);
    }
    if h <= 52 {
        let c = pow2((52 - h) as nat) as int;
        two_to_is_pow2((52 - h) as nat);
        lemma_pow2_adds(h, (52 - h) as nat);
        lemma_pow2_pos((52 - h) as nat);
        let s = m * c;
        let b = pow2(h) as int;
        assert(0 <= s && s < 2 * (b * c)) by (nonlinear_arith)
            requires
                s == m * c,
                b <= m < 2 * b,
                c > 0,
        ;
    } else {
        let d = pow2((h - 52) as nat);
        two_to_is_pow2((h - 52) as nat);
        lemma_pow2_pos((h - 52) as nat);
        let s = value::round_even(m, d) as int;
        rounded(m, d);
        lemma_pow2_adds(53, (h - 52) as nat);
        lemma_pow2_unfold(h + 1);
        assert(0 <= s <= 0x20_0000_0000_0000) by (nonlinear_arith)
            requires
                s >= 0,
                2 * (s * d - m) <= d,
                m < 0x20_0000_0000_0000 * d,
                d > 0,
        ;
    }
}

/// An integer compares with a double as the double that stands for it does, either way
/// round. Up to `2^53` that is by size.
pub proof fn integers_among_reals(i: i64, y: u64)
    ensures
        order_of(ValueView::Integer(i), ValueView::Real(y)) == order_of(
            ValueView::Real(nearest_real(i)),
            ValueView::Real(y),
        ),
        order_of(ValueView::Real(y), ValueView::Integer(i)) == order_of(
            ValueView::Real(y),
            ValueView::Real(nearest_real(i)),
        ),
        is_finite(y) && -0x20_0000_0000_0000 <= i <= 0x20_0000_0000_0000 ==> {
            &&& order_of(ValueView::Integer(i), ValueView::Real(y)) == Some(Ordering::Less) <==> i
                * one_unit() < real_units(y)
            &&& order_of(ValueView::Integer(i), ValueView::Real(y)) == Some(Ordering::Equal) <==> i
                * one_unit() == real_units(y)
            &&& order_of(ValueView::Integer(i), ValueView::Real(y)) == Some(Ordering::Greater)
                <==> i * one_unit() > real_units(y)
        },
{
    vstd::arithmetic::power2::lemma2_to64_rest();
    integer_becomes_nearest(i, 63);
    nearest_ranks(i);
    finite_is_number(nearest_real(i));
    rank_is_size(nearest_real(i), y);
    if is_finite(y) {
        finite_is_number(y);
    }
}

proof fn nearest_ranks(i: i64)
    ensures
        value::real_rank(nearest_real(i)) == value::integer_rank(i),
{
    if i > 0 {
        magnitude_small(i as nat);
    } else if i < 0 {
        magnitude_small((-i) as nat);
    }
}

/// A double becomes an integer by dropping its fraction; what does not fit becomes the
/// nearest bound, and what is not a number becomes zero.
pub proof fn real_becomes_integer(bits: u64)
    ensures
        ({
            let u = real_units(bits);
            let one = one_unit();
            let r = value::real_as_integer(bits);
            let bound = 0x8000_0000_0000_0000 * one;
            &&& i64::MIN <= r <= i64::MAX
            &&& is_finite(bits) && 0 <= u < bound ==> r * one <= u < (r + 1) * one
            &&& is_finite(bits) && -bound < u <= 0 ==> (r - 1) * one < u <= r * one
            &&& !value::is_nan(bits) && u >= bound ==> r == i64::MAX
            &&& !value::is_nan(bits) && u <= -bound ==> r == i64::MIN
            &&& value::is_nan(bits) ==> r == 0
        }),
{
    let one = one_unit();
    let a = bits as int % 0x8000_0000_0000_0000;
    let e = a / 0x10_0000_0000_0000;
    let f = a % 0x10_0000_0000_0000;
    let m = 0x10_0000_0000_0000 + f;
    let u = magnitude_units(a);
    let bound = 0x8000_0000_0000_0000 * one;
    lemma_pow2_pos(1074);
    assert((bits as int / 0x10_0000_0000_0000) % 2048 == e);
    assert(bits as int % 0x10_0000_0000_0000 == f);
    magnitude_bounds(a);
    vstd::arithmetic::power2::lemma2_to64();
    vstd::arithmetic::power2::lemma2_to64_rest();
    assert(0 * one == 0 && 1 * one == one && (-1) * one == -one);
    if e < 1023 {
        lemma_pow2_adds(52, e as nat);
        if e < 1022 {
            lemma_pow2_strictly_increases((52 + e) as nat, 1074);
        }
        assert(u < one);
        assert(one <= bound) by (nonlinear_arith)
            requires
                bound == 0x8000_0000_0000_0000 * one,
                one > 0,
        ;
    } else {
        let w = pow2((e - 1) as nat) as int;
        lemma_pow2_pos((e - 1) as nat);
        assert(u == m * w);
        if e >= 1086 {
            lemma_pow2_adds(52, (e - 1) as nat);
            lemma_pow2_adds(63, 1074);
            if e > 1086 {
                lemma_pow2_strictly_increases(1137, (51 + e) as nat);
            }
            assert(u >= bound);
        } else if e >= 1075 {
            let t = pow2((e - 1075) as nat) as int;
            two_to_is_pow2((e - 1075) as nat);
            lemma_pow2_adds((e - 1075) as nat, 1074);
            assert((e - 1075) as nat + 1074 == (e - 1) as nat);
            assert(m * (t * one) == (m * t) * one) by (nonlinear_arith);
            let r = m * t;
            below_bound(e, m);
            assert((r + 1) * one == r * one + one) by (nonlinear_arith);
            assert((-r) * one == -(r * one)) by (nonlinear_arith);
            assert((-r - 1) * one == -(r * one) - one) by (nonlinear_arith);
            assert(r * one < bound) by (nonlinear_arith)
                requires
                    r < 0x8000_0000_0000_0000,
                    one > 0,
                    bound == 0x8000_0000_0000_0000 * one,
            ;
        } else {
            let t = pow2((1075 - e) as nat) as int;
            two_to_is_pow2((1075 - e) as nat);
            lemma_pow2_pos((1075 - e) as nat);
            lemma_pow2_adds((1075 - e) as nat, (e - 1) as nat);
            assert((1075 - e) as nat + (e - 1) as nat == 1074);
            let q = m / t;
            vstd::arithmetic::div_mod::lemma_fundamental_div_mod(m, t);
            vstd::arithmetic::div_mod::lemma_mod_bound(m, t);
            assert(q * (t * w) == (t * q) * w) by (nonlinear_arith);
            assert((t * q) * w <= m * w && m * w < (t * q) * w + t * w) by (nonlinear_arith)
                requires
                    t * q <= m < t * q + t,
                    w > 0,
            ;
            assert((q + 1) * one == q * one + one) by (nonlinear_arith);
            assert((-q) * one == -(q * one)) by (nonlinear_arith);
            assert((-q - 1) * one == -(q * one) - one) by (nonlinear_arith);
            assert(0 <= q <= m) by (nonlinear_arith)
                requires
                    t * q <= m < t * q + t,
                    t >= 1,
                    m >= 0,
            ;
            assert(q * one < bound) by (nonlinear_arith)
                requires
                    q < 0x8000_0000_0000_0000,
                    one > 0,
                    bound == 0x8000_0000_0000_0000 * one,
            ;
            assert((q + 1) * one <= bound) by (nonlinear_arith)
                requires
                    q + 1 <= 0x8000_0000_0000_0000,
                    one > 0,
                    bound == 0x8000_0000_0000_0000 * one,
            ;
        }
    }
}

proof fn below_bound(e: int, m: int)
    requires
        1075 <= e < 1086,
        0 <= m < 0x20_0000_0000_0000,
    ensures
        m * pow2((e - 1075) as nat) < 0x8000_0000_0000_0000,
        m * pow2((e - 1075) as nat) >= 0,
{
    let t = pow2((e - 1075) as nat) as int;
    vstd::arithmetic::power2::lemma2_to64();
    vstd::arithmetic::power2::lemma2_to64_rest();
    if e < 1085 {
        lemma_pow2_strictly_increases((e - 1075) as nat, 10);
    }
    assert(m * t < 0x8000_0000_0000_0000 && m * t >= 0) by (nonlinear_arith)
        requires
            0 <= m < 0x20_0000_0000_0000,
            0 <= t <= 1024,
    ;
}

// ---------------------------------------------------------------------------
// Operators
// ---------------------------------------------------------------------------

/// On integers the operators of filters are those of integers.
pub proof fn operators_on_integers(a: i64, b: i64)
    ensures
        filter::holds(ValueView::Integer(a), FilterOp::Eq, ValueView::Integer(b)) <==> a == b,
        filter::holds(ValueView::Integer(a), FilterOp::Ne, ValueView::Integer(b)) <==> a != b,
        filter::holds(ValueView::Integer(a), FilterOp::Lt, ValueView::Integer(b)) <==> a < b,
        filter::holds(ValueView::Integer(a), FilterOp::Le, ValueView::Integer(b)) <==> a <= b,
        filter::holds(ValueView::Integer(a), FilterOp::Gt, ValueView::Integer(b)) <==> a > b,
        filter::holds(ValueView::Integer(a), FilterOp::Ge, ValueView::Integer(b)) <==> a >= b,
{
}

/// On finite doubles the operators of filters go by size.
pub proof fn operators_on_reals(x: u64, y: u64)
    requires
        is_finite(x),
        is_finite(y),
    ensures
        filter::holds(ValueView::Real(x), FilterOp::Eq, ValueView::Real(y)) <==> real_units(x)
            == real_units(y),
        filter::holds(ValueView::Real(x), FilterOp::Ne, ValueView::Real(y)) <==> real_units(x)
            != real_units(y),
        filter::holds(ValueView::Real(x), FilterOp::Lt, ValueView::Real(y)) <==> real_units(x)
            < real_units(y),
        filter::holds(ValueView::Real(x), FilterOp::Le, ValueView::Real(y)) <==> real_units(x)
            <= real_units(y),
        filter::holds(ValueView::Real(x), FilterOp::Gt, ValueView::Real(y)) <==> real_units(x)
            > real_units(y),
        filter::holds(ValueView::Real(x), FilterOp::Ge, ValueView::Real(y)) <==> real_units(x)
            >= real_units(y),
{
    reals_by_size(x, y);
}

/// On any two values `=` holds if they compare as equal, and each other operator as its
/// name says; on values that do not compare none holds.
pub proof fn operators_follow_order(a: ValueView, b: ValueView)
    ensures
        filter::holds(a, FilterOp::Eq, b) <==> order_of(a, b) == Some(Ordering::Equal),
        filter::holds(a, FilterOp::Lt, b) <==> order_of(a, b) == Some(Ordering::Less),
        filter::holds(a, FilterOp::Gt, b) <==> order_of(a, b) == Some(Ordering::Greater),
        filter::holds(a, FilterOp::Ne, b) <==> order_of(a, b) is Some && order_of(a, b) != Some(
            Ordering::Equal,
        ),
        filter::holds(a, FilterOp::Le, b) <==> order_of(a, b) is Some && order_of(a, b) != Some(
            Ordering::Greater,
        ),
        filter::holds(a, FilterOp::Ge, b) <==> order_of(a, b) is Some && order_of(a, b) != Some(
            Ordering::Less,
        ),
{
}

/// On texts and blobs `=` holds of the same text and the same bytes, and on nothing else.
pub proof fn equality_is_sameness(a: Seq<char>, b: Seq<char>, p: Seq<u8>, q: Seq<u8>)
    ensures
        filter::holds(ValueView::Text(a), FilterOp::Eq, ValueView::Text(b)) <==> a == b,
        filter::holds(ValueView::Text(a), FilterOp::Ne, ValueView::Text(b)) <==> a != b,
        filter::holds(ValueView::Blob(p), FilterOp::Eq, ValueView::Blob(q)) <==> p == q,
        filter::holds(ValueView::Blob(p), FilterOp::Ne, ValueView::Blob(q)) <==> p != q,
{
    texts_by_first_difference(a, b, 0);
    blobs_by_first_difference(p, q, 0);
}

// ---------------------------------------------------------------------------
// Values of one type
// ---------------------------------------------------------------------------

/// Both values are null or of the type.
pub open spec fn of_kind(x: ValueView, t: value::Type) -> bool {
    x is Null || value::type_of(x) == Some(t)
}

/// Values of one type are in order: of three, the first is not behind the third if it is
/// not behind the second and the second is not behind the third.
pub proof fn order_is_transitive(a: ValueView, b: ValueView, c: ValueView, t: value::Type)
    requires
        of_kind(a, t),
        of_kind(b, t),
        of_kind(c, t),
        order_of(a, b) != Some(Ordering::Greater),
        order_of(b, c) != Some(Ordering::Greater),
    ensures
        order_of(a, b) is Some,
        order_of(a, c) is Some,
        order_of(a, c) != Some(Ordering::Greater),
        order_of(a, c) == Some(Ordering::Equal) ==> order_of(a, b) == Some(Ordering::Equal)
            && order_of(b, c) == Some(Ordering::Equal),
{
    match (a, b, c) {
        (ValueView::Text(x), ValueView::Text(y), ValueView::Text(z)) => {
            value::encode_utf8_injective(x, y);
            value::encode_utf8_injective(y, z);
            value::encode_utf8_injective(x, z);
            bytes_transitive(
                vstd::utf8::encode_utf8(x),
                vstd::utf8::encode_utf8(y),
                vstd::utf8::encode_utf8(z),
            );
        },
        (ValueView::Blob(x), ValueView::Blob(y), ValueView::Blob(z)) => {
            bytes_transitive(x, y, z);
        },
        _ => {},
    }
}

proof fn bytes_transitive(x: Seq<u8>, y: Seq<u8>, z: Seq<u8>)
    requires
        crate::bytes::lex_lt(x, y) || x == y,
        crate::bytes::lex_lt(y, z) || y == z,
    ensures
        crate::bytes::lex_lt(x, z) || x == z,
        x == z ==> x == y && y == z,
{
    crate::bytes::lex_irreflexive(x);
    if crate::bytes::lex_lt(x, y) && crate::bytes::lex_lt(y, z) {
        crate::bytes::lex_transitive(x, y, z);
    }
}

}
