//! Double-precision numbers as plain data.
//!
//! A [`Float`] holds the bit pattern of an IEEE 754 double and the decimal text
//! that it displays as. Order, truncation and closeness are computed on the bit
//! pattern with integer arithmetic; [`value`] says which number a pattern is.

use vstd::prelude::*;

use crate::text;
use crate::views;
use crate::text::{chars_of, copy, same, to_lower};

verus! {

/// A double: its bit pattern and the text it displays as.
#[derive(Debug)]
pub struct Float {
    pub bits: u64,
    pub text: String,
}

/// What a [`Float`] holds.
#[verifier::ext_equal]
pub struct FloatV {
    pub bits: u64,
    pub text: Seq<char>,
}

impl View for Float {
    type V = FloatV;

    open spec fn view(&self) -> FloatV {
        FloatV { bits: self.bits, text: self.text@ }
    }
}

impl Clone for Float {
    fn clone(&self) -> (out: Float)
        ensures
            out@ == self@,
    {
        Float { bits: self.bits, text: self.text.clone() }
    }
}

// ---------------------------------------------------------------------------
// Which number a bit pattern is
// ---------------------------------------------------------------------------

pub const SIGN_BIT: u64 = 0x8000_0000_0000_0000;

pub const INFINITE: u64 = 0x7FF0_0000_0000_0000;

pub const UNIT: u64 = 0x10_0000_0000_0000;

pub open spec fn p2(k: int) -> int {
    vstd::arithmetic::power2::pow2(k as nat) as int
}

pub open spec fn negative(bits: u64) -> bool {
    bits >= SIGN_BIT
}

/// The pattern without its sign bit.
pub open spec fn magnitude(bits: u64) -> int {
    if negative(bits) {
        bits - SIGN_BIT
    } else {
        bits as int
    }
}

pub open spec fn nan(bits: u64) -> bool {
    magnitude(bits) > INFINITE
}

pub open spec fn finite(bits: u64) -> bool {
    magnitude(bits) < INFINITE
}

/// The significand of a sign-free pattern.
pub open spec fn significand(m: int) -> int {
    if m / UNIT as int == 0 {
        m % UNIT as int
    } else {
        UNIT + m % UNIT as int
    }
}

/// The power of two that the significand is multiplied by, over `2^-1074`.
pub open spec fn scale(m: int) -> int {
    if m / UNIT as int == 0 {
        0
    } else {
        m / UNIT as int - 1
    }
}

/// The absolute number of a sign-free pattern, in units of `2^-1074`.
pub open spec fn size(m: int) -> int {
    significand(m) * p2(scale(m))
}

/// The number that a pattern stands for, in units of `2^-1074`; the pattern of
/// infinity comes out above every finite one.
pub open spec fn value(bits: u64) -> int {
    if negative(bits) {
        -size(magnitude(bits))
    } else {
        size(magnitude(bits))
    }
}

/// Below, in the order of IEEE 754: never with a NaN.
pub open spec fn below(a: u64, b: u64) -> bool {
    !nan(a) && !nan(b) && value(a) < value(b)
}

proof fn lemma_p2_pos(k: int)
    requires
        k >= 0,
    ensures
        p2(k) > 0,
{
    vstd::arithmetic::power2::lemma_pow2_pos(k as nat);
}

pub proof fn lemma_p2_add(a: int, b: int)
    requires
        a >= 0,
        b >= 0,
    ensures
        p2(a + b) == p2(a) * p2(b),
{
    vstd::arithmetic::power2::lemma_pow2_adds(a as nat, b as nat);
}

pub proof fn lemma_p2_le(a: int, b: int)
    requires
        0 <= a <= b,
    ensures
        p2(a) <= p2(b),
{
    if a < b {
        vstd::arithmetic::power2::lemma_pow2_strictly_increases(a as nat, b as nat);
    }
}

pub proof fn lemma_p2_small()
    ensures
        p2(0) == 1,
        p2(1) == 2,
        p2(10) == 1024,
        p2(11) == 2048,
        p2(52) == UNIT,
        p2(53) == 2 * UNIT,
        p2(54) == 4 * UNIT,
        p2(63) == SIGN_BIT,
        p2(64) == 2 * SIGN_BIT,
{
    vstd::arithmetic::power2::lemma2_to64();
    vstd::arithmetic::power2::lemma2_to64_rest();
}

/// A larger sign-free pattern stands for a larger number.
pub proof fn lemma_size_increases(a: int, b: int)
    requires
        0 <= a < b,
    ensures
        0 <= size(a) < size(b),
{
    let u = UNIT as int;
    let ea = a / u;
    let eb = b / u;
    lemma_p2_small();
    lemma_p2_pos(scale(a));
    lemma_p2_pos(scale(b));
    assert(a == ea * u + a % u);
    assert(b == eb * u + b % u);
    assert(significand(a) * p2(scale(a)) >= 0) by (nonlinear_arith)
        requires
            significand(a) >= 0,
            p2(scale(a)) > 0,
    ;
    if ea == eb {
        assert(significand(a) < significand(b));
        assert(significand(a) * p2(scale(a)) < significand(b) * p2(scale(b))) by (nonlinear_arith)
            requires
                significand(a) < significand(b),
                scale(a) == scale(b),
                p2(scale(a)) > 0,
        ;
    } else {
        assert(ea < eb);
        let sa = scale(a);
        let sb = scale(b);
        assert(significand(b) >= u);
        if ea == 0 {
            assert(significand(a) < u);
            assert(sa == 0);
            assert(significand(b) * p2(sb) >= u) by (nonlinear_arith)
                requires
                    significand(b) >= u,
                    p2(sb) >= 1,
                    u > 0,
            ;
        } else {
            assert(significand(a) < 2 * u);
            lemma_p2_add(sa, 1);
            lemma_p2_le(sa + 1, sb);
            assert(significand(a) * p2(sa) < u * (p2(sa) * 2)) by (nonlinear_arith)
                requires
                    significand(a) < 2 * u,
                    p2(sa) > 0,
            ;
            assert(u * (p2(sa) * 2) <= significand(b) * p2(sb)) by (nonlinear_arith)
                requires
                    significand(b) >= u,
                    p2(sa) * 2 <= p2(sb),
                    p2(sa) > 0,
                    u > 0,
            ;
        }
    }
}

proof fn lemma_value_order(a: u64, b: u64)
    ensures
        magnitude(a) < magnitude(b) ==> size(magnitude(a)) < size(magnitude(b)),
        magnitude(b) < magnitude(a) ==> size(magnitude(b)) < size(magnitude(a)),
        magnitude(a) == 0 <==> size(magnitude(a)) == 0,
        magnitude(b) == 0 <==> size(magnitude(b)) == 0,
        size(magnitude(a)) >= 0,
        size(magnitude(b)) >= 0,
{
    lemma_p2_small();
    assert(size(0) == 0);
    if magnitude(a) < magnitude(b) {
        lemma_size_increases(magnitude(a), magnitude(b));
    }
    if magnitude(b) < magnitude(a) {
        lemma_size_increases(magnitude(b), magnitude(a));
    }
    if magnitude(a) > 0 {
        lemma_size_increases(0, magnitude(a));
    }
    if magnitude(b) > 0 {
        lemma_size_increases(0, magnitude(b));
    }
}

fn magnitude_of(bits: u64) -> (out: u64)
    ensures
        out == magnitude(bits),
{
    if bits >= SIGN_BIT {
        bits - SIGN_BIT
    } else {
        bits
    }
}

pub fn is_nan(bits: u64) -> (out: bool)
    ensures
        out == nan(bits),
{
    magnitude_of(bits) > INFINITE
}

pub fn is_finite(bits: u64) -> (out: bool)
    ensures
        out == finite(bits),
{
    magnitude_of(bits) < INFINITE
}

/// `a < b` on doubles.
pub fn is_below(a: u64, b: u64) -> (out: bool)
    ensures
        out == below(a, b),
{
    proof {
        lemma_value_order(a, b);
    }
    if is_nan(a) || is_nan(b) {
        return false;
    }
    let x = magnitude_of(a);
    let y = magnitude_of(b);
    if a >= SIGN_BIT {
        if b >= SIGN_BIT {
            y < x
        } else {
            x != 0 || y != 0
        }
    } else {
        if b >= SIGN_BIT {
            false
        } else {
            x < y
        }
    }
}

/// `a == b` on doubles: never with a NaN, and the two zeros are equal.
pub open spec fn level(a: u64, b: u64) -> bool {
    !nan(a) && !nan(b) && value(a) == value(b)
}

pub fn is_level(a: u64, b: u64) -> (out: bool)
    ensures
        out == level(a, b),
{
    !is_nan(a) && !is_nan(b) && !is_below(a, b) && !is_below(b, a)
}

/// Law: the order on doubles is a strict order.
pub proof fn law_below_is_strict_order(a: u64, b: u64, c: u64)
    ensures
        !below(a, a),
        below(a, b) && below(b, c) ==> below(a, c),
        below(a, b) ==> !below(b, a),
{
}

// ---------------------------------------------------------------------------
// Whole numbers as doubles
// ---------------------------------------------------------------------------

/// The number of binary digits of `n`.
pub open spec fn bit_len(n: nat) -> int
    decreases n,
{
    if n == 0 {
        0
    } else {
        1 + bit_len(n / 2)
    }
}

/// `n` rounded to 53 binary digits, half to even.
pub open spec fn nearest(n: nat) -> int {
    if bit_len(n) <= 53 {
        n as int
    } else {
        let d = p2(bit_len(n) - 53);
        let q = n as int / d;
        let r = n as int % d;
        if 2 * r > d || (2 * r == d && q % 2 == 1) {
            (q + 1) * d
        } else {
            q * d
        }
    }
}

proof fn lemma_bit_len(n: nat)
    ensures
        bit_len(n) >= 0,
        n > 0 ==> bit_len(n) >= 1 && p2(bit_len(n) - 1) <= n < p2(bit_len(n)),
    decreases n,
{
    lemma_p2_small();
    if n > 0 {
        lemma_bit_len(n / 2);
        let k = bit_len(n / 2);
        lemma_p2_add(k, 1);
        if n / 2 > 0 {
            lemma_p2_add(k - 1, 1);
        }
    }
}

proof fn lemma_bit_len_unique(n: nat, k: int)
    requires
        k >= 1,
        p2(k - 1) <= n < p2(k),
    ensures
        bit_len(n) == k,
{
    lemma_bit_len(n);
    lemma_p2_pos(k - 1);
    if bit_len(n) < k {
        lemma_p2_le(bit_len(n), k - 1);
    } else if bit_len(n) > k {
        lemma_p2_le(k, bit_len(n) - 1);
    }
}

/// `2^k`.
pub fn two_to(k: u32) -> (out: u128)
    requires
        k <= 120,
    ensures
        out == p2(k as int),
        out <= 0x1_0000_0000_0000_0000_0000_0000_0000_00u128,
{
    let mut i: u32 = 0;
    let mut out: u128 = 1;
    proof {
        lemma_p2_small();
    }
    while i < k
        invariant
            i <= k <= 120,
            out == p2(i as int),
            out <= 0x1_0000_0000_0000_0000_0000_0000_0000_00u128,
        decreases k - i,
    {
        proof {
            lemma_p2_small();
            lemma_p2_add(i as int, 1);
            lemma_p2_le(i + 1, 120);
            lemma_p2_120();
        }
        out = out * 2;
        i += 1;
    }
    out
}

proof fn lemma_p2_120()
    ensures
        p2(120) == 0x1_0000_0000_0000_0000_0000_0000_0000_00u128,
        p2(118) * 4 == p2(120),
        p2(117) * 8 == p2(120),
        p2(65) == 4 * SIGN_BIT,
{
    lemma_p2_small();
    lemma_p2_add(64, 1);
    lemma_p2_add(54, 64);
    lemma_p2_add(53, 64);
    lemma_p2_add(118, 1);
    lemma_p2_add(119, 1);
    assert(4 * 0x10_0000_0000_0000int * (2 * 0x8000_0000_0000_0000int) * 4 == 0x1_0000_0000_0000_0000_0000_0000_0000_00int) by (nonlinear_arith);
    assert(p2(118) == 4 * 0x10_0000_0000_0000int * (2 * 0x8000_0000_0000_0000int));
    assert(p2(117) * 2 == p2(118)) by {
        lemma_p2_add(117, 1);
    }
}

/// The bit pattern of `n as f64`.
pub fn bits_of_unsigned(n: u64) -> (out: u64)
    ensures
        !negative(out),
        finite(out),
        value(out) == nearest(n as nat) * p2(1074),
{
    proof {
        lemma_p2_small();
        lemma_bit_len(n as nat);
    }
    if n == 0 {
        assert(value(0u64) == 0);
        assert(nearest(0) == 0);
        assert(0 * p2(1074) == 0);
        return 0;
    }
    // k: the number of binary digits
    let mut k: u32 = 1;
    let mut top: u128 = 2;
    while top <= n as u128
        invariant
            1 <= k <= 64,
            top == p2(k as int),
            p2(k - 1) <= n,
            n > 0,
        decreases 65 - k,
    {
        proof {
            lemma_p2_small();
            lemma_p2_add(k as int, 1);
            if k >= 64 {
                lemma_p2_le(64, k as int);
            }
            lemma_p2_le(k as int, 63);
        }
        top = top * 2;
        k += 1;
    }
    proof {
        lemma_bit_len_unique(n as nat, k as int);
    }
    let m: u64;
    if k <= 53 {
        let f = two_to(53 - k);
        proof {
            lemma_p2_add(k as int, 53 - k);
            lemma_p2_add(k - 1, 53 - k);
            lemma_p2_pos(53 - k);
            lemma_p2_pos(k as int);
            assert(n * f < p2(k as int) * f) by (nonlinear_arith)
                requires
                    n < p2(k as int),
                    f > 0,
            ;
            assert(n * f >= p2(k - 1) * f) by (nonlinear_arith)
                requires
                    n >= p2(k - 1),
                    f > 0,
            ;
            lemma_p2_small();
        }
        m = (n as u128 * f) as u64;
    } else {
        let d = two_to(k - 53) as u64;
        proof {
            lemma_p2_le(k - 53, 11);
            lemma_p2_small();
            lemma_p2_add(k - 53, 53);
            lemma_p2_add(k - 53, 52);
            lemma_p2_pos(k - 53);
        }
        let q = n / d;
        let r = n % d;
        proof {
            vstd::arithmetic::div_mod::lemma_fundamental_div_mod(n as int, d as int);
            assert(UNIT <= q < 2 * UNIT) by (nonlinear_arith)
                requires
                    n == d * q + r,
                    0 <= r < d,
                    d > 0,
                    n < d * (2 * UNIT),
                    n >= d * UNIT,
            ;
        }
        if 2 * r > d || (2 * r == d && q % 2 == 1) {
            m = q + 1;
        } else {
            m = q;
        }
    }
    // value = m * 2^(k - 53), with m in [2^52, 2^53]
    assert(UNIT <= m <= 2 * UNIT);
    let e: u64 = (k + 1021) as u64;
    let out: u64 = e * UNIT + m;
    proof {
        let u = UNIT as int;
        lemma_p2_small();
        let s: int = k + 1021;
        if m < 2 * UNIT {
            let f = m - u;
            assert(out == (e + 1) * u + f);
            vstd::arithmetic::div_mod::lemma_fundamental_div_mod_converse(out as int, u, e + 1, f);
            assert(significand(out as int) == m);
            assert(scale(out as int) == s);
            assert(size(out as int) == m * p2(s));
        } else {
            assert(out == (e + 2) * u);
            vstd::arithmetic::div_mod::lemma_fundamental_div_mod_converse(out as int, u, e + 2, 0);
            assert(significand(out as int) == u);
            assert(scale(out as int) == s + 1);
            lemma_p2_add(s, 1);
            assert(u * (p2(s) * 2) == (2 * u) * p2(s)) by (nonlinear_arith);
            assert(size(out as int) == m * p2(s));
        }
        if k <= 53 {
            let f = p2(53 - k);
            lemma_p2_add(53 - k, s);
            assert(53 - k + s == 1074);
            assert(m == n * f);
            assert((n * f) * p2(s) == n * (f * p2(s))) by (nonlinear_arith);
        } else {
            let d = p2(k - 53);
            lemma_p2_add(k - 53, 1074);
            assert(k - 53 + 1074 == s);
            assert((m * d) * p2(1074) == m * (d * p2(1074))) by (nonlinear_arith);
            assert(nearest(n as nat) == m * d);
        }
        assert(out < INFINITE);
    }
    out
}

/// The number that `i as f64` stands for.
pub open spec fn nearest_int(i: int) -> int {
    if i < 0 {
        -nearest((-i) as nat)
    } else {
        nearest(i as nat)
    }
}

/// The bit pattern of `i as f64`.
pub fn bits_of_signed(i: i64) -> (out: u64)
    ensures
        finite(out),
        value(out) == nearest_int(i as int) * p2(1074),
        negative(out) <==> i < 0,
{
    if i < 0 {
        let n: u64 = if i == i64::MIN {
            SIGN_BIT
        } else {
            (-i) as u64
        };
        let b = bits_of_unsigned(n);
        proof {
            assert((-nearest(n as nat)) * p2(1074) == -(nearest(n as nat) * p2(1074))) by (nonlinear_arith);
        }
        b + SIGN_BIT
    } else {
        bits_of_unsigned(i as u64)
    }
}

proof fn lemma_small_is_exact(n: nat)
    requires
        n <= 0x20_0000_0000_0000,
    ensures
        nearest(n) == n,
{
    lemma_p2_small();
    lemma_bit_len(n);
    if bit_len(n) > 53 {
        lemma_p2_le(53, bit_len(n) - 1);
        assert(n == 0x20_0000_0000_0000);
        if bit_len(n) > 54 {
            lemma_p2_le(54, bit_len(n) - 1);
            lemma_p2_add(53, 1);
        }
        assert(bit_len(n) == 54);
        assert(p2(1) == 2);
    }
}

/// Law: whole numbers up to and including the 53rd power of two are exact as
/// doubles.
pub proof fn law_small_whole_numbers_are_exact(i: int)
    requires
        -0x20_0000_0000_0000 <= i <= 0x20_0000_0000_0000,
    ensures
        nearest_int(i) == i,
{
    lemma_small_is_exact(
        if i < 0 {
            (-i) as nat
        } else {
            i as nat
        },
    );
}

/// Whether a pattern is the double nearest to `i`.
pub open spec fn rounds(i: int, bits: u64) -> bool {
    finite(bits) && value(bits) == nearest_int(i) * p2(1074) && (negative(bits) <==> i < 0)
}

/// The bit pattern of `i as f64`.
pub open spec fn double_of(i: int) -> u64 {
    choose|bits: u64| rounds(i, bits)
}

proof fn lemma_rounds_once(i: int, a: u64, b: u64)
    requires
        rounds(i, a),
        rounds(i, b),
    ensures
        a == b,
{
    lemma_value_order(a, b);
}

pub fn double_of_signed(i: i64) -> (out: u64)
    ensures
        out == double_of(i as int),
        rounds(i as int, out),
{
    let b = bits_of_signed(i);
    proof {
        assert(rounds(i as int, b));
        lemma_rounds_once(i as int, b, double_of(i as int));
    }
    b
}

/// Law: whole numbers up to and including the 53rd power of two compare as
/// doubles as they do by value.
pub proof fn law_small_whole_numbers_compare_by_value(i: int, j: int, a: u64, b: u64)
    requires
        -0x20_0000_0000_0000 <= i <= 0x20_0000_0000_0000,
        -0x20_0000_0000_0000 <= j <= 0x20_0000_0000_0000,
        rounds(i, a),
        rounds(j, b),
    ensures
        a == double_of(i),
        below(a, b) <==> i < j,
        level(a, b) <==> i == j,
{
    lemma_rounds_once(i, a, double_of(i));
    law_small_whole_numbers_are_exact(i);
    law_small_whole_numbers_are_exact(j);
    lemma_p2_pos(1074);
    let p = p2(1074);
    assert(i < j ==> i * p < j * p) by (nonlinear_arith)
        requires
            p > 0,
    ;
    assert(j < i ==> j * p < i * p) by (nonlinear_arith)
        requires
            p > 0,
    ;
}

pub fn double_of_unsigned(n: u64) -> (out: u64)
    ensures
        out == double_of(n as int),
        rounds(n as int, out),
{
    let b = bits_of_unsigned(n);
    proof {
        assert(rounds(n as int, b));
        lemma_rounds_once(n as int, b, double_of(n as int));
    }
    b
}

// ---------------------------------------------------------------------------
// Truncation to a whole number
// ---------------------------------------------------------------------------

/// The whole part of a sign-free pattern.
pub open spec fn whole(m: int) -> int {
    size(m) / p2(1074)
}

/// The number that `f as i64` is: the whole part, held to the range of `i64`;
/// zero for a NaN.
pub open spec fn truncated(bits: u64) -> int {
    if nan(bits) {
        0
    } else if negative(bits) {
        if whole(magnitude(bits)) > 0x8000_0000_0000_0000 {
            -0x8000_0000_0000_0000
        } else {
            -whole(magnitude(bits))
        }
    } else if whole(magnitude(bits)) > 0x7FFF_FFFF_FFFF_FFFF {
        0x7FFF_FFFF_FFFF_FFFF
    } else {
        whole(magnitude(bits))
    }
}

proof fn lemma_whole_small(sig: int, s: int)
    requires
        0 <= sig < 2 * UNIT,
        0 <= s <= 1074,
    ensures
        (sig * p2(s)) / p2(1074) == sig / p2(1074 - s),
{
    let t = 1074 - s;
    lemma_p2_add(s, t);
    lemma_p2_pos(s);
    lemma_p2_pos(t);
    vstd::arithmetic::div_mod::lemma_div_denominator(sig * p2(s), p2(s), p2(t));
    vstd::arithmetic::div_mod::lemma_div_multiples_vanish(sig, p2(s));
    assert(sig * p2(s) == p2(s) * sig) by (nonlinear_arith);
}

proof fn lemma_whole_large(sig: int, s: int)
    requires
        0 <= sig,
        s >= 1074,
    ensures
        (sig * p2(s)) / p2(1074) == sig * p2(s - 1074),
{
    let t = s - 1074;
    lemma_p2_add(t, 1074);
    lemma_p2_pos(1074);
    assert(sig * (p2(t) * p2(1074)) == p2(1074) * (sig * p2(t))) by (nonlinear_arith);
    vstd::arithmetic::div_mod::lemma_div_multiples_vanish(sig * p2(t), p2(1074));
}

/// The whole part of a sign-free pattern, held below `2^64`.
fn whole_of(m: u64) -> (out: u64)
    requires
        m <= INFINITE,
    ensures
        out == whole(m as int) || (out == u64::MAX && whole(m as int) > u64::MAX),
{
    let e = m / UNIT;
    let f = m % UNIT;
    let sig: u64 = if e == 0 {
        f
    } else {
        UNIT + f
    };
    let s: u64 = if e == 0 {
        0
    } else {
        e - 1
    };
    assert(sig == significand(m as int) && s == scale(m as int));
    if s >= 1074 {
        let t = s - 1074;
        proof {
            lemma_whole_large(sig as int, s as int);
            lemma_p2_small();
        }
        if t > 11 {
            proof {
                lemma_p2_add(52, 12);
                lemma_p2_le(12, t as int);
                lemma_p2_pos(t as int);
                lemma_p2_pos(12);
                assert(sig * p2(t as int) >= UNIT * p2(12)) by (nonlinear_arith)
                    requires
                        sig >= UNIT,
                        p2(t as int) >= p2(12),
                        p2(12) > 0,
                ;
            }
            u64::MAX
        } else {
            let k = two_to(t as u32);
            proof {
                lemma_p2_le(t as int, 11);
                lemma_p2_add(53, 11);
                lemma_p2_pos(t as int);
                assert(sig * k < 2 * UNIT * 2048) by (nonlinear_arith)
                    requires
                        sig < 2 * UNIT,
                        0 < k <= 2048,
                ;
            }
            (sig as u128 * k) as u64
        }
    } else {
        let t = 1074 - s;
        proof {
            lemma_whole_small(sig as int, s as int);
            lemma_p2_small();
        }
        if t > 60 {
            proof {
                lemma_p2_le(53, t as int);
                vstd::arithmetic::div_mod::lemma_basic_div(sig as int, p2(t as int));
            }
            0
        } else {
            let k = two_to(t as u32);
            proof {
                lemma_p2_pos(t as int);
                vstd::arithmetic::div_mod::lemma_div_is_ordered_by_denominator(sig as int, 1, k as int);
            }
            (sig as u128 / k) as u64
        }
    }
}

/// `f as i64`.
pub fn truncate(bits: u64) -> (out: i64)
    ensures
        out == truncated(bits),
{
    if is_nan(bits) {
        return 0;
    }
    let w = whole_of(magnitude_of(bits));
    if bits >= SIGN_BIT {
        if w >= SIGN_BIT {
            i64::MIN
        } else {
            -(w as i64)
        }
    } else {
        if w >= SIGN_BIT {
            i64::MAX
        } else {
            w as i64
        }
    }
}

// ---------------------------------------------------------------------------
// Closeness
// ---------------------------------------------------------------------------

/// Numbers whose exact difference rounds to less than `2^-52`: a difference of
/// `2^-52 - 2^-106` is the first that rounds up to `2^-52`.
pub open spec fn near(a: u64, b: u64) -> bool {
    let d = value(a) - value(b);
    finite(a) && finite(b) && -(p2(1022) - p2(968)) < d < p2(1022) - p2(968)
}

/// The significand with its sign.
pub open spec fn signed_significand(bits: u64) -> int {
    if negative(bits) {
        -significand(magnitude(bits))
    } else {
        significand(magnitude(bits))
    }
}

fn parts_of(bits: u64) -> (out: (i64, u32))
    requires
        finite(bits),
    ensures
        out.0 == signed_significand(bits),
        out.1 == scale(magnitude(bits)),
        -2 * UNIT < out.0 < 2 * UNIT,
        out.1 <= 2045,
        out.1 > 0 ==> out.0 >= UNIT || out.0 <= -UNIT,
        value(bits) == out.0 * p2(out.1 as int),
{
    let m = magnitude_of(bits);
    let e = m / UNIT;
    let f = m % UNIT;
    let sig: u64 = if e == 0 {
        f
    } else {
        UNIT + f
    };
    let s: u64 = if e == 0 {
        0
    } else {
        e - 1
    };
    proof {
        let p = p2(s as int);
        assert((-(sig as int)) * p == -(sig * p)) by (nonlinear_arith);
    }
    if bits >= SIGN_BIT {
        (-(sig as i64), s as u32)
    } else {
        (sig as i64, s as u32)
    }
}

proof fn lemma_limit()
    ensures
        p2(1022) - p2(968) == (4 * UNIT - 1) * p2(968),
        p2(968) > 0,
{
    lemma_p2_small();
    lemma_p2_add(54, 968);
    lemma_p2_pos(968);
    assert(4 * UNIT * p2(968) - p2(968) == (4 * UNIT - 1) * p2(968)) by (nonlinear_arith);
}

/// Signed significands far apart in scale: the larger scale alone decides.
proof fn lemma_far(x: int, y: int, ea: int, eb: int)
    requires
        UNIT <= x < 2 * UNIT || -2 * UNIT < x <= -UNIT,
        -2 * UNIT < y < 2 * UNIT,
        0 <= eb,
        ea > eb + 64,
    ensures
        -((4 * UNIT - 1) * p2(968)) < x * p2(ea) - y * p2(eb) < (4 * UNIT - 1) * p2(968) <==> ea <= 969,
{
    let d = ea - eb;
    lemma_p2_small();
    lemma_p2_120();
    lemma_p2_add(eb, d);
    lemma_p2_le(65, d);
    lemma_p2_pos(eb);
    lemma_p2_pos(ea);
    lemma_limit();
    let pe = p2(ea);
    let q = y * p2(eb);
    // eight times the smaller term stays below one unit of the larger
    assert(-pe < 8 * q < pe) by (nonlinear_arith)
        requires
            q == y * p2(eb),
            -2 * UNIT < y < 2 * UNIT,
            pe == p2(eb) * p2(d),
            p2(d) >= 4 * SIGN_BIT,
            p2(eb) > 0,
            SIGN_BIT >= 16 * UNIT,
            UNIT > 0,
    ;
    let l = p2(968);
    if ea <= 969 {
        lemma_p2_add(968, 1);
        lemma_p2_le(ea, 969);
        assert(pe <= 2 * l);
        assert(8 * (x * pe) <= 8 * (2 * UNIT - 1) * pe && 8 * (x * pe) >= -8 * (2 * UNIT - 1) * pe)
            by (nonlinear_arith)
            requires
                -(2 * UNIT - 1) <= x <= 2 * UNIT - 1,
                pe > 0,
        ;
        assert(8 * (2 * UNIT - 1) * pe + pe < 8 * ((4 * UNIT - 1) * l)) by (nonlinear_arith)
            requires
                0 < pe <= 2 * l,
                l > 0,
                UNIT == 0x10_0000_0000_0000,
        ;
        assert(-8 * (2 * UNIT - 1) * pe == -(8 * (2 * UNIT - 1) * pe)) by (nonlinear_arith);
    } else {
        lemma_p2_add(968, 2);
        lemma_p2_small();
        vstd::arithmetic::power2::lemma2_to64();
        assert(p2(2) == 4);
        lemma_p2_le(970, ea);
        assert(p2(970) == 4 * l) by (nonlinear_arith)
            requires
                p2(970) == l * p2(2),
                p2(2) == 4,
        ;
        assert(pe >= 4 * l);
        assert(8 * UNIT * pe - pe >= 8 * ((4 * UNIT - 1) * l)) by (nonlinear_arith)
            requires
                pe >= 4 * l,
                l > 0,
                UNIT == 0x10_0000_0000_0000,
        ;
        if x > 0 {
            assert(8 * (x * pe) >= 8 * UNIT * pe) by (nonlinear_arith)
                requires
                    x >= UNIT,
                    pe > 0,
            ;
        } else {
            assert(8 * (x * pe) <= -(8 * UNIT * pe)) by (nonlinear_arith)
                requires
                    x <= -UNIT,
                    pe > 0,
            ;
        }
    }
}

/// Whether `n * 2^e` is below the limit.
fn is_small(n: u128, e: u32) -> (out: bool)
    requires
        n <= 0x40_0000_0000_0000_0000_0000_0000_0000u128,
        e <= 2045,
    ensures
        out <==> n * p2(e as int) < (4 * UNIT - 1) * p2(968),
{
    proof {
        lemma_limit();
        lemma_p2_small();
        lemma_p2_120();
        lemma_p2_pos(e as int);
    }
    let top: u128 = 4 * UNIT as u128 - 1;
    if e >= 968 {
        let t = e - 968;
        proof {
            lemma_p2_add(t as int, 968);
            lemma_p2_pos(t as int);
            assert(n * p2(e as int) == (n * p2(t as int)) * p2(968)) by (nonlinear_arith)
                requires
                    p2(e as int) == p2(t as int) * p2(968),
            ;
            assert((n * p2(t as int)) * p2(968) < top * p2(968) <==> n * p2(t as int) < top) by (nonlinear_arith)
                requires
                    p2(968) > 0,
            ;
        }
        if n == 0 {
            return true;
        }
        if t >= 54 {
            proof {
                lemma_p2_le(54, t as int);
                assert(n * p2(t as int) >= p2(t as int)) by (nonlinear_arith)
                    requires
                        n >= 1,
                        p2(t as int) > 0,
                ;
            }
            return false;
        }
        if n > top {
            proof {
                assert(n * p2(t as int) >= n) by (nonlinear_arith)
                    requires
                        n >= 1,
                        p2(t as int) >= 1,
                ;
            }
            return false;
        }
        let k = two_to(t);
        proof {
            lemma_p2_le(t as int, 54);
            assert(n * k <= 4 * UNIT * (4 * UNIT)) by (nonlinear_arith)
                requires
                    n <= 4 * UNIT,
                    k <= 4 * UNIT,
            ;
        }
        n * k < top
    } else {
        let t = 968 - e;
        proof {
            lemma_p2_add(t as int, e as int);
            lemma_p2_pos(t as int);
            assert(top * p2(968) == (top * p2(t as int)) * p2(e as int)) by (nonlinear_arith)
                requires
                    p2(968) == p2(t as int) * p2(e as int),
            ;
            assert(n * p2(e as int) < (top * p2(t as int)) * p2(e as int) <==> n < top * p2(t as int))
                by (nonlinear_arith)
                requires
                    p2(e as int) > 0,
            ;
        }
        if t >= 66 {
            proof {
                lemma_p2_add(65, 1);
                lemma_p2_le(66, t as int);
                assert(top * p2(t as int) >= top * p2(66)) by (nonlinear_arith)
                    requires
                        p2(t as int) >= p2(66),
                        top >= 0,
                ;
                assert(p2(66) == 8 * 0x8000_0000_0000_0000);
                assert(top * p2(66) > 0x40_0000_0000_0000_0000_0000_0000_0000int) by (nonlinear_arith)
                    requires
                        p2(66) == 8 * 0x8000_0000_0000_0000,
                        top == 0x3F_FFFF_FFFF_FFFF,
                ;
            }
            return true;
        }
        let k = two_to(t);
        proof {
            lemma_p2_add(65, 1);
            lemma_p2_le(t as int, 66);
            assert(top * k <= 0x40_0000_0000_0000 * (8 * 0x8000_0000_0000_0000)) by (nonlinear_arith)
                requires
                    top <= 0x40_0000_0000_0000,
                    k <= 8 * 0x8000_0000_0000_0000,
            ;
        }
        n < top * k
    }
}

/// Closeness of `x * 2^ea` and `y * 2^eb`, the larger scale first.
fn is_near_scaled(x: i64, ea: u32, y: i64, eb: u32) -> (out: bool)
    requires
        -2 * UNIT < x < 2 * UNIT,
        -2 * UNIT < y < 2 * UNIT,
        ea > 0 ==> x >= UNIT || x <= -UNIT,
        eb <= ea <= 2045,
    ensures
        out <==> -(p2(1022) - p2(968)) < x * p2(ea as int) - y * p2(eb as int) < p2(1022) - p2(968),
{
    let d = ea - eb;
    proof {
        lemma_limit();
        lemma_p2_small();
        lemma_p2_120();
    }
    if d > 64 {
        proof {
            lemma_far(x as int, y as int, ea as int, eb as int);
        }
        return ea <= 969;
    }
    let k = two_to(d);
    proof {
        lemma_p2_le(d as int, 64);
        lemma_p2_pos(d as int);
        lemma_p2_pos(eb as int);
        lemma_p2_add(d as int, eb as int);
        assert(-(2 * UNIT) * (2 * SIGN_BIT) <= x * k <= 2 * UNIT * (2 * SIGN_BIT)) by (nonlinear_arith)
            requires
                -2 * UNIT < x < 2 * UNIT,
                0 < k <= 2 * SIGN_BIT,
        ;
        assert(x * p2(ea as int) - y * p2(eb as int) == (x * k - y) * p2(eb as int)) by (nonlinear_arith)
            requires
                p2(ea as int) == k * p2(eb as int),
        ;
        assert(2 * UNIT * (2 * SIGN_BIT) == 0x20_0000_0000_0000_0000_0000_0000_0000int) by (nonlinear_arith)
            requires
                UNIT == 0x10_0000_0000_0000,
                SIGN_BIT == 0x8000_0000_0000_0000,
        ;
        assert(-(2 * UNIT) * (2 * SIGN_BIT) == -(2 * UNIT * (2 * SIGN_BIT))) by (nonlinear_arith);
    }
    let n: i128 = x as i128 * k as i128 - y as i128;
    let p: u128 = if n < 0 {
        (-n) as u128
    } else {
        n as u128
    };
    proof {
        let e = p2(eb as int);
        assert((-(n as int)) * e == -(n * e)) by (nonlinear_arith);
        assert(n < 0 ==> n * e <= 0) by (nonlinear_arith)
            requires
                e > 0,
        ;
        assert(n >= 0 ==> n * e >= 0) by (nonlinear_arith)
            requires
                e > 0,
        ;
    }
    is_small(p, eb)
}

/// `(a - b).abs() < f64::EPSILON` on doubles.
pub fn is_near(a: u64, b: u64) -> (out: bool)
    ensures
        out == near(a, b),
{
    if magnitude_of(a) >= INFINITE || magnitude_of(b) >= INFINITE {
        return false;
    }
    let (x, ea) = parts_of(a);
    let (y, eb) = parts_of(b);
    if ea >= eb {
        is_near_scaled(x, ea, y, eb)
    } else {
        is_near_scaled(y, eb, x, ea)
    }
}

/// Law: closeness does not depend on the order of its operands, and a finite
/// number is close to itself.
pub proof fn law_near_is_symmetric(a: u64, b: u64)
    ensures
        near(a, b) == near(b, a),
        near(a, a) == finite(a),
{
    lemma_limit();
    assert((4 * UNIT - 1) * p2(968) > 0) by (nonlinear_arith)
        requires
            p2(968) > 0,
            UNIT == 0x10_0000_0000_0000,
    ;
}

// ---------------------------------------------------------------------------
// Reading numerals
// ---------------------------------------------------------------------------

/// What [`yaml_real`] returns for a text.
pub uninterp spec fn yaml_reading(s: Seq<char>) -> Option<FloatV>;

pub open spec fn all_digits(s: Seq<char>) -> bool {
    s.len() > 0 && forall|i: int| 0 <= i < s.len() ==> text::is_digit(#[trigger] s[i])
}

/// A minus sign or none, then one or more digits.
pub open spec fn is_whole_numeral(s: Seq<char>) -> bool {
    all_digits(s) || (s.len() > 0 && s[0] == '-' && all_digits(s.skip(1)))
}

/// The number other than zero that a whole numeral stands for, where it fits an
/// `i64`.
pub open spec fn whole_number(s: Seq<char>) -> Option<int> {
    match text::read_int(s) {
        Ok(i) => if is_whole_numeral(s) && i != 0 {
            Some(i)
        } else {
            None
        },
        Err(_) => None,
    }
}

/// `yaml_rust2::Yaml::as_f64` on a real scalar of the given source text: the
/// double that the text is read as and the text it displays as. The result
/// depends on the text alone; a whole numeral is always read, and one that stands
/// for a number other than zero is read as the nearest double.
#[verifier::external_body]
pub(crate) fn yaml_real(s: &str) -> (out: Option<Float>)
    ensures
        views::opt(out) == yaml_reading(s@),
        is_whole_numeral(s@) ==> out is Some,
        whole_number(s@) matches Some(i) ==> rounds(i, out->Some_0.bits),
{
    yaml_rust2::Yaml::Real(s.to_string()).as_f64().map(|f| Float { bits: f.to_bits(), text: f.to_string() })
}

/// What [`debug_real`] returns for a text.
pub uninterp spec fn debug_reading(s: Seq<char>) -> Option<Seq<char>>;

/// The `Debug` form in std of the double that `yaml_rust2::Yaml::as_f64` reads a
/// real scalar as. It depends on the scalar's text alone.
#[verifier::external_body]
fn debug_real(s: &str) -> (out: Option<String>)
    ensures
        views::opt(out) == debug_reading(s@),
{
    yaml_rust2::Yaml::Real(s.to_string()).as_f64().map(|f| format!("{:?}", f))
}

/// A double as messages show it.
pub open spec fn shown(f: FloatV) -> Seq<char> {
    match debug_reading(f.text) {
        Some(s) => s,
        None => f.text,
    }
}

pub fn show(f: &Float) -> (out: String)
    ensures
        out@ == shown(f@),
{
    match debug_real(f.text.as_str()) {
        Some(s) => s,
        None => f.text.clone(),
    }
}

/// The texts by which YAML writes infinity and the NaN.
pub open spec fn yaml_special(s: Seq<char>) -> bool {
    s == ".inf"@ || s == ".Inf"@ || s == ".INF"@ || s == "+.inf"@ || s == "+.Inf"@ || s == "+.INF"@ || s == "-.inf"@
        || s == "-.Inf"@ || s == "-.INF"@ || s == ".nan"@ || s == ".NaN"@ || s == ".NAN"@
}

pub fn is_yaml_special(s: &str) -> (out: bool)
    ensures
        out == yaml_special(s@),
{
    same(s, ".inf") || same(s, ".Inf") || same(s, ".INF") || same(s, "+.inf") || same(s, "+.Inf") || same(s, "+.INF")
        || same(s, "-.inf") || same(s, "-.Inf") || same(s, "-.INF") || same(s, ".nan") || same(s, ".NaN")
        || same(s, ".NAN")
}

pub open spec fn has_digit(s: Seq<char>) -> bool {
    exists|i: int| 0 <= i < s.len() && text::is_digit(#[trigger] s[i])
}

/// The infinities and NaNs by their names, in any case, with a sign or none.
pub open spec fn named(s: Seq<char>) -> Option<FloatV> {
    let signed = s.len() > 0 && (s[0] == '+' || s[0] == '-');
    let minus = s.len() > 0 && s[0] == '-';
    let t = text::lower(if signed {
        s.skip(1)
    } else {
        s
    });
    if t == "inf"@ || t == "infinity"@ {
        Some(
            if minus {
                FloatV { bits: 0xFFF0_0000_0000_0000, text: "-inf"@ }
            } else {
                FloatV { bits: 0x7FF0_0000_0000_0000, text: "inf"@ }
            },
        )
    } else if t == "nan"@ {
        Some(
            if minus {
                FloatV { bits: 0xFFF8_0000_0000_0000, text: "NaN"@ }
            } else {
                FloatV { bits: 0x7FF8_0000_0000_0000, text: "NaN"@ }
            },
        )
    } else {
        None
    }
}

/// The double that a numeral is read as: one with a digit by its value, one
/// without only if it names an infinity or the NaN.
pub open spec fn reading(s: Seq<char>) -> Option<FloatV> {
    if yaml_special(s) {
        None
    } else if has_digit(s) {
        yaml_reading(s)
    } else {
        named(s)
    }
}

proof fn lemma_numeral_is_plain(s: Seq<char>)
    requires
        is_whole_numeral(s),
    ensures
        has_digit(s),
        !yaml_special(s),
{
    reveal_strlit(".inf");
    reveal_strlit(".Inf");
    reveal_strlit(".INF");
    reveal_strlit("+.inf");
    reveal_strlit("+.Inf");
    reveal_strlit("+.INF");
    reveal_strlit("-.inf");
    reveal_strlit("-.Inf");
    reveal_strlit("-.INF");
    reveal_strlit(".nan");
    reveal_strlit(".NaN");
    reveal_strlit(".NAN");
    if all_digits(s) {
        assert(text::is_digit(s[0]));
    } else {
        assert(text::is_digit(s.skip(1)[0]));
        assert(text::is_digit(s[1]));
    }
}

fn any_digit(v: &Vec<char>) -> (out: bool)
    ensures
        out == has_digit(v@),
{
    let mut i: usize = 0;
    while i < v.len()
        invariant
            i <= v.len(),
            forall|j: int| 0 <= j < i ==> !text::is_digit(#[trigger] v@[j]),
        decreases v.len() - i,
    {
        if text::char_is_digit(v[i]) {
            assert(text::is_digit(v@[i as int]));
            return true;
        }
        i += 1;
    }
    false
}

fn read_named(s: &str, v: &Vec<char>) -> (out: Option<Float>)
    requires
        v@ == s@,
    ensures
        views::opt(out) == named(s@),
{
    let signed = v.len() > 0 && (v[0] == '+' || v[0] == '-');
    let minus = v.len() > 0 && v[0] == '-';
    let from: usize = if signed {
        1
    } else {
        0
    };
    let t = to_lower(text::string_of(v, from, v.len()).as_str());
    proof {
        assert(v@.subrange(from as int, v@.len() as int) =~= if signed {
            s@.skip(1)
        } else {
            s@
        });
    }
    if same(t.as_str(), "inf") || same(t.as_str(), "infinity") {
        if minus {
            Some(Float { bits: 0xFFF0_0000_0000_0000, text: copy("-inf") })
        } else {
            Some(Float { bits: 0x7FF0_0000_0000_0000, text: copy("inf") })
        }
    } else if same(t.as_str(), "nan") {
        if minus {
            Some(Float { bits: 0xFFF8_0000_0000_0000, text: copy("NaN") })
        } else {
            Some(Float { bits: 0x7FF8_0000_0000_0000, text: copy("NaN") })
        }
    } else {
        None
    }
}

/// Reads a double as `str::parse` does.
pub fn read_float(s: &str) -> (out: Option<Float>)
    ensures
        views::opt(out) == reading(s@),
        whole_number(s@) matches Some(i) ==> out is Some && rounds(i, out->Some_0.bits),
{
    let v = chars_of(s);
    proof {
        if is_whole_numeral(s@) {
            lemma_numeral_is_plain(s@);
        }
    }
    if is_yaml_special(s) {
        None
    } else if any_digit(&v) {
        yaml_real(s)
    } else {
        read_named(s, &v)
    }
}

proof fn lemma_dec_is_numeral(n: nat)
    ensures
        all_digits(text::dec(n)),
    decreases n,
{
    if n >= 10 {
        lemma_dec_is_numeral(n / 10);
    }
}

proof fn lemma_dec_int_is_numeral(i: int)
    ensures
        is_whole_numeral(text::dec_int(i)),
{
    if i < 0 {
        lemma_dec_is_numeral((-i) as nat);
        assert(text::dec_int(i).skip(1) =~= text::dec((-i) as nat));
    } else {
        lemma_dec_is_numeral(i as nat);
    }
}

/// A whole number as a double: the nearest one, displayed as its numeral reads.
pub open spec fn of_int(i: int) -> FloatV {
    FloatV { bits: double_of(i), text: yaml_reading(text::dec_int(i))->Some_0.text }
}

pub fn float_of_signed(i: i64) -> (out: Float)
    ensures
        out@ == of_int(i as int),
{
    proof {
        lemma_dec_int_is_numeral(i as int);
    }
    let t = text::int_text(i);
    match yaml_real(t.as_str()) {
        Some(f) => Float { bits: double_of_signed(i), text: f.text },
        None => Float { bits: 0, text: t },
    }
}

pub fn float_of_unsigned(n: u64) -> (out: Float)
    ensures
        out@ == of_int(n as int),
{
    proof {
        lemma_dec_int_is_numeral(n as int);
    }
    let t = text::dec_text(n);
    match yaml_real(t.as_str()) {
        Some(f) => Float { bits: double_of_unsigned(n), text: f.text },
        None => Float { bits: 0, text: t },
    }
}

// ---------------------------------------------------------------------------
// Whole numbers as doubles
// ---------------------------------------------------------------------------

proof fn lemma_pattern_of(n: nat) -> (bits: u64)
    requires
        0 < n < 0x20_0000_0000_0000,
    ensures
        bits < INFINITE,
        size(bits as int) == n * p2(1074),
{
    lemma_p2_small();
    lemma_bit_len(n);
    let k = bit_len(n);
    if k > 53 {
        lemma_p2_le(53, k - 1);
    }
    let up = p2(53 - k);
    lemma_p2_pos(53 - k);
    lemma_p2_add(k - 1, 53 - k);
    lemma_p2_add(k, 53 - k);
    let sig = n * up;
    assert(UNIT <= sig < 2 * UNIT) by (nonlinear_arith)
        requires
            sig == n * up,
            p2(k - 1) <= n < p2(k),
            p2(k - 1) * up == UNIT,
            p2(k) * up == 2 * UNIT,
            up > 0,
    ;
    let e = k + 1022;
    let m = e * UNIT + (sig - UNIT);
    assert(m / UNIT as int == e && m % UNIT as int == sig - UNIT) by {
        vstd::arithmetic::div_mod::lemma_fundamental_div_mod_converse(m, UNIT as int, e, sig - UNIT);
    }
    assert(significand(m) == sig);
    assert(scale(m) == k + 1021);
    lemma_p2_add(53 - k, k + 1021);
    assert(n * up * p2(k + 1021) == n * (up * p2(k + 1021))) by (nonlinear_arith);
    m as u64
}

proof fn lemma_small_whole_has_a_double(i: int)
    requires
        -0x20_0000_0000_0000 < i < 0x20_0000_0000_0000,
    ensures
        rounds(i, double_of(i)),
{
    law_small_whole_numbers_are_exact(i);
    lemma_p2_small();
    if i == 0 {
        assert(significand(0) == 0);
        assert(size(0) == 0) by (nonlinear_arith)
            requires
                size(0) == significand(0) * p2(scale(0)),
                significand(0) == 0,
        ;
        assert(0 * p2(1074) == 0);
        assert(rounds(i, 0u64));
    } else if i > 0 {
        let b = lemma_pattern_of(i as nat);
        assert(rounds(i, b));
    } else {
        let b = lemma_pattern_of((-i) as nat);
        let bits = (b + SIGN_BIT) as u64;
        assert(magnitude(bits) == b);
        assert(-((-i) * p2(1074)) == i * p2(1074)) by (nonlinear_arith);
        assert(rounds(i, bits));
    }
}

/// Law: as doubles, whole numbers below the 53rd power of two are ordered by their
/// values, are near each other just where they are the same, and are whole again
/// when cut to whole numbers.
pub proof fn law_small_whole_numbers_stay_what_they_are(i: int, j: int)
    requires
        -0x20_0000_0000_0000 < i < 0x20_0000_0000_0000,
        -0x20_0000_0000_0000 < j < 0x20_0000_0000_0000,
    ensures
        below(double_of(i), double_of(j)) <==> i < j,
        level(double_of(i), double_of(j)) <==> i == j,
        near(double_of(i), double_of(j)) <==> i == j,
        truncated(double_of(i)) == i,
{
    let a = double_of(i);
    let b = double_of(j);
    lemma_small_whole_has_a_double(i);
    lemma_small_whole_has_a_double(j);
    law_small_whole_numbers_compare_by_value(i, j, a, b);
    law_small_whole_numbers_are_exact(i);
    law_small_whole_numbers_are_exact(j);
    let p = p2(1074);
    lemma_p2_pos(1074);
    lemma_p2_le(1022, 1074);
    lemma_p2_pos(968);
    lemma_p2_le(968, 1022);
    if 968 < 1022 {
        vstd::arithmetic::power2::lemma_pow2_strictly_increases(968, 1022);
    }
    assert(i * p - j * p == (i - j) * p) by (nonlinear_arith);
    assert(i != j ==> ((i - j) * p >= p || (i - j) * p <= -p)) by (nonlinear_arith)
        requires
            p > 0,
    ;
    let n = if i < 0 {
        -i
    } else {
        i
    };
    assert(size(magnitude(a)) == n * p) by {
        assert(-(i * p) == (-i) * p) by (nonlinear_arith);
    }
    vstd::arithmetic::div_mod::lemma_div_multiples_vanish(n, p);
    assert(n * p == p * n) by (nonlinear_arith);
}

/// Law: cutting a double to a whole number goes towards zero: the number cut is
/// not beyond the double and less than one away from it, unless the range of whole
/// numbers ends before it.
pub proof fn law_truncation_goes_towards_zero(bits: u64)
    requires
        !nan(bits),
    ensures
        !negative(bits) ==> {
            &&& 0 <= truncated(bits) <= i64::MAX
            &&& truncated(bits) * p2(1074) <= value(bits)
            &&& value(bits) < (truncated(bits) + 1) * p2(1074) || truncated(bits) == i64::MAX
        },
        negative(bits) ==> {
            &&& i64::MIN <= truncated(bits) <= 0
            &&& value(bits) <= truncated(bits) * p2(1074)
            &&& (truncated(bits) - 1) * p2(1074) < value(bits) || truncated(bits) == i64::MIN
        },
{
    let p = p2(1074);
    lemma_p2_pos(1074);
    let m = magnitude(bits);
    let w = whole(m);
    let v = size(m);
    lemma_p2_pos(scale(m));
    assert(v >= 0) by (nonlinear_arith)
        requires
            v == significand(m) * p2(scale(m)),
            significand(m) >= 0,
            p2(scale(m)) > 0,
    ;
    vstd::arithmetic::div_mod::lemma_fundamental_div_mod(v, p);
    assert(0 <= w) by (nonlinear_arith)
        requires
            v == p * w + v % p,
            0 <= v % p < p,
            v >= 0,
            p > 0,
    ;
    let t = truncated(bits);
    let u = if negative(bits) {
        -t
    } else {
        t
    };
    assert(0 <= u <= w);
    assert(u * p <= v) by (nonlinear_arith)
        requires
            u <= w,
            v == p * w + v % p,
            0 <= v % p < p,
            p > 0,
    ;
    assert(v < (w + 1) * p) by (nonlinear_arith)
        requires
            v == p * w + v % p,
            0 <= v % p < p,
    ;
    assert((-t) * p == -(t * p)) by (nonlinear_arith);
    assert((t - 1) * p == -((-t + 1) * p)) by (nonlinear_arith);
}

/// Law: a whole number that has more than 53 binary digits is taken to the nearest
/// number of 53 binary digits; halfway between two, to the even one.
pub proof fn law_large_whole_numbers_go_to_the_nearest(n: nat)
    requires
        bit_len(n) > 53,
    ensures
        ({
            let d = p2(bit_len(n) - 53);
            let x = nearest(n);
            &&& x % d == 0
            &&& 2 * (x - n) <= d
            &&& 2 * (n - x) <= d
            &&& 2 * (x - n) == d || 2 * (n - x) == d ==> (x / d) % 2 == 0
        }),
{
    let d = p2(bit_len(n) - 53);
    lemma_p2_pos(bit_len(n) - 53);
    let q = n as int / d;
    let r = n as int % d;
    vstd::arithmetic::div_mod::lemma_fundamental_div_mod(n as int, d);
    assert((q + 1) * d == d * q + d && q * d == d * q) by (nonlinear_arith);
    vstd::arithmetic::div_mod::lemma_mod_multiples_basic(q, d);
    vstd::arithmetic::div_mod::lemma_mod_multiples_basic(q + 1, d);
    vstd::arithmetic::div_mod::lemma_div_by_multiple(q, d);
    vstd::arithmetic::div_mod::lemma_div_by_multiple(q + 1, d);
}

/// Law: the names of infinity and of no number are read in any case; a plus sign
/// changes nothing, a minus sign changes the sign and no more.
pub proof fn law_signs_of_named_numbers(t: Seq<char>)
    requires
        t.len() > 0,
        t[0] != '+',
        t[0] != '-',
    ensures
        named(seq!['+'] + t) == named(t),
        named(seq!['-'] + t) is Some <==> named(t) is Some,
        named(t) matches Some(f) ==> !negative(f.bits) && named(seq!['-'] + t)->Some_0.bits == f.bits + SIGN_BIT,
        named(t) is Some ==> !finite(named(t)->Some_0.bits),
{
    assert((seq!['+'] + t).skip(1) =~= t);
    assert((seq!['-'] + t).skip(1) =~= t);
}

} // verus!
