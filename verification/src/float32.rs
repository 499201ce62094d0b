//! Single-precision numbers held as their IEEE 754 bit patterns.
//!
//! Scores, thresholds and timestamps are compared, ordered and stored here;
//! they are never added or multiplied. Arithmetic on them is the caller's, and
//! is handed in where a computation needs it.

use vstd::arithmetic::power2::{lemma_pow2_adds, pow2};
use vstd::prelude::*;

verus! {

/// A single-precision number, as its bits: one sign bit, eight of exponent,
/// twenty-three of fraction.
#[derive(Clone, Copy, Debug, PartialEq, Eq, Structural)]
pub struct Float32 {
    pub bits: u32,
}

/// A double-precision number, as its bits.
#[derive(Clone, Copy, Debug, PartialEq, Eq, Structural)]
pub struct Float64 {
    pub bits: u64,
}

impl Float32 {
    /// Whether the sign bit is set.
    pub open spec fn negative(self) -> bool {
        self.bits >= 0x8000_0000
    }

    /// The bits below the sign bit. They grow with the absolute value.
    pub open spec fn magnitude(self) -> int {
        self.bits as int % 0x8000_0000
    }

    /// Whether this is no number.
    pub open spec fn nan(self) -> bool {
        self.magnitude() > 0x7f80_0000
    }

    /// Where a number stands among the others: a greater number has a greater
    /// ordinal, and the two zeros share one.
    pub open spec fn ordinal(self) -> int {
        if self.negative() {
            -self.magnitude()
        } else {
            self.magnitude()
        }
    }

    /// `self < other` of IEEE 754: false as soon as one is no number.
    pub open spec fn less(self, other: Float32) -> bool {
        !self.nan() && !other.nan() && self.ordinal() < other.ordinal()
    }

    /// `self <= other` of IEEE 754: false as soon as one is no number.
    pub open spec fn at_most(self, other: Float32) -> bool {
        !self.nan() && !other.nan() && self.ordinal() <= other.ordinal()
    }

    /// Where a bit pattern stands in the total order of IEEE 754, in which
    /// minus zero comes before zero and what is no number comes at the ends.
    pub open spec fn total_rank(self) -> int {
        if self.negative() {
            -self.magnitude() - 1
        } else {
            self.magnitude()
        }
    }

    fn split(self) -> (parts: (bool, u32))
        ensures
            parts.0 == self.negative(),
            parts.1 == self.magnitude(),
    {
        if self.bits >= 0x8000_0000 {
            (true, self.bits - 0x8000_0000)
        } else {
            (false, self.bits)
        }
    }

    /// Whether this is no number.
    pub fn is_nan(self) -> (nan: bool)
        ensures
            nan == self.nan(),
    {
        self.split().1 > 0x7f80_0000
    }

    /// `self < other`.
    pub fn lt(self, other: Float32) -> (less: bool)
        ensures
            less == self.less(other),
    {
        let (a_neg, a) = self.split();
        let (b_neg, b) = other.split();
        if a > 0x7f80_0000 || b > 0x7f80_0000 {
            false
        } else if a_neg {
            if b_neg {
                a > b
            } else {
                a > 0 || b > 0
            }
        } else {
            !b_neg && a < b
        }
    }

    /// `self <= other`.
    pub fn le(self, other: Float32) -> (at_most: bool)
        ensures
            at_most == self.at_most(other),
    {
        !self.is_nan() && !other.is_nan() && !other.lt(self)
    }

    /// Whether `self` comes before `other` in the total order.
    pub fn total_before(self, other: Float32) -> (before: bool)
        ensures
            before == (self.total_rank() < other.total_rank()),
    {
        let (a_neg, a) = self.split();
        let (b_neg, b) = other.split();
        if a_neg {
            !b_neg || a > b
        } else {
            !b_neg && a < b
        }
    }
}

/// The total order tells any two bit patterns apart.
pub proof fn lemma_total_rank_injective(a: Float32, b: Float32)
    ensures
        a.total_rank() == b.total_rank() ==> a == b,
{
}

/// On numbers the total order refines `<`.
pub proof fn lemma_total_rank_refines(a: Float32, b: Float32)
    ensures
        a.less(b) ==> a.total_rank() < b.total_rank(),
        !a.nan() && !b.nan() && a.total_rank() <= b.total_rank() ==> a.at_most(b),
{
}

// ---------------------------------------------------------------------------
// Half precision
// ---------------------------------------------------------------------------

/// The exponent field of a half-precision bit pattern.
pub open spec fn half_exponent(bits: u16) -> int {
    bits as int / 0x400 % 32
}

/// The fraction field of a half-precision bit pattern.
pub open spec fn half_fraction(bits: u16) -> int {
    bits as int % 0x400
}

/// The absolute value of a finite half-precision number, in units of its
/// smallest positive value, 2^-24.
pub open spec fn half_magnitude(bits: u16) -> int {
    if half_exponent(bits) == 0 {
        half_fraction(bits)
    } else {
        (0x400 + half_fraction(bits)) * pow2((half_exponent(bits) - 1) as nat)
    }
}

/// The exponent field of a single-precision bit pattern.
pub open spec fn single_exponent(bits: u32) -> int {
    bits as int / 0x80_0000 % 256
}

/// The fraction field of a single-precision bit pattern.
pub open spec fn single_fraction(bits: u32) -> int {
    bits as int % 0x80_0000
}

/// The absolute value of a finite single-precision number, in units of its
/// smallest positive value, 2^-149.
pub open spec fn single_magnitude(bits: u32) -> int {
    if single_exponent(bits) == 0 {
        single_fraction(bits)
    } else {
        (0x80_0000 + single_fraction(bits)) * pow2((single_exponent(bits) - 1) as nat)
    }
}

/// Whether a single-precision bit pattern stands for what a half-precision one
/// does: the same sign and value; infinity for infinity; and for no number no
/// number, quiet, with the same payload in the leading bits of the fraction.
pub open spec fn widens(half: u16, single: u32) -> bool {
    &&& (half >= 0x8000) == (single >= 0x8000_0000)
    &&& if half_exponent(half) == 31 {
        &&& single_exponent(single) == 255
        &&& single_fraction(single) == if half_fraction(half) == 0 {
            0
        } else if half_fraction(half) < 0x200 {
            (half_fraction(half) + 0x200) * 0x2000
        } else {
            half_fraction(half) * 0x2000
        }
    } else {
        &&& single_exponent(single) < 255
        &&& single_magnitude(single) == half_magnitude(half) * pow2(125)
    }
}

proof fn lemma_fields(sign: u32, exponent: u32, fraction: u32, bits: u32)
    requires
        sign <= 1,
        exponent < 256,
        fraction < 0x80_0000,
        bits == sign * 0x8000_0000 + exponent * 0x80_0000 + fraction,
    ensures
        (bits >= 0x8000_0000) == (sign == 1),
        single_exponent(bits) == exponent,
        single_fraction(bits) == fraction,
{
}

/// Widens a half-precision bit pattern to single precision. Every
/// half-precision number is a single-precision number, so nothing is rounded.
pub fn widen_half(bits: u16) -> (wide: Float32)
    ensures
        widens(bits, wide.bits),
{
    let sign: u32 = if bits >= 0x8000 {
        1
    } else {
        0
    };
    let exponent: u32 = (bits / 0x400 % 32) as u32;
    let fraction: u32 = (bits % 0x400) as u32;
    let mut wide_exponent: u32 = 0;
    let mut wide_fraction: u32 = 0;
    if exponent == 31 {
        wide_exponent = 255;
        if fraction == 0 {
            wide_fraction = 0;
        } else if fraction < 0x200 {
            wide_fraction = (fraction + 0x200) * 0x2000;
        } else {
            wide_fraction = fraction * 0x2000;
        }
    } else if exponent > 0 {
        wide_exponent = exponent + 112;
        wide_fraction = fraction * 0x2000;
        proof {
            lemma_pow2_adds((exponent - 1) as nat, 125);
            lemma_pow2_adds(13, (exponent + 111) as nat);
            vstd::arithmetic::power2::lemma2_to64();
            let p = pow2((exponent + 111) as nat) as int;
            assert((0x80_0000 + fraction * 0x2000) * p == (0x400 + fraction) * (0x2000 * p))
                by (nonlinear_arith);
            let q = pow2((exponent - 1) as nat) as int;
            let r = pow2(125) as int;
            assert((0x400 + fraction) * (q * r) == (0x400 + fraction) * q * r)
                by (nonlinear_arith);
            assert((0x80_0000 + wide_fraction) * pow2((wide_exponent - 1) as nat) == half_magnitude(
                bits,
            ) * pow2(125));
        }
    } else if fraction > 0 {
        let mut scaled: u32 = fraction;
        let mut shifted: u32 = 0;
        proof {
            vstd::arithmetic::power2::lemma2_to64();
        }
        while scaled < 0x400
            invariant
                0 < scaled < 0x800,
                shifted <= 10,
                scaled == fraction * pow2(shifted as nat),
                scaled >= pow2(shifted as nat),
            decreases 0x800 - scaled,
        {
            proof {
                vstd::arithmetic::power2::lemma2_to64();
                lemma_pow2_adds(shifted as nat, 1);
                let p = pow2(shifted as nat) as int;
                assert(fraction * p * 2 == fraction * (p * 2)) by (nonlinear_arith);
                if shifted == 10 {
                    assert(false);
                }
            }
            scaled = scaled * 2;
            shifted = shifted + 1;
        }
        wide_exponent = 113 - shifted;
        wide_fraction = (scaled - 0x400) * 0x2000;
        proof {
            vstd::arithmetic::power2::lemma2_to64();
            lemma_pow2_adds(13, (112 - shifted) as nat);
            lemma_pow2_adds(shifted as nat, (125 - shifted) as nat);
            let p = pow2((112 - shifted) as nat) as int;
            assert((0x80_0000 + (scaled - 0x400) * 0x2000) * p == scaled * (0x2000 * p))
                by (nonlinear_arith);
            let q = pow2(shifted as nat) as int;
            let r = pow2((125 - shifted) as nat) as int;
            assert(fraction * q * r == fraction * (q * r)) by (nonlinear_arith);
            assert(half_magnitude(bits) == fraction);
            assert((0x80_0000 + wide_fraction) * pow2((wide_exponent - 1) as nat) == half_magnitude(
                bits,
            ) * pow2(125));
        }
    } else {
        assert(half_magnitude(bits) * pow2(125) == 0) by (nonlinear_arith)
            requires
                half_magnitude(bits) == 0,
        ;
    }
    let wide: u32 = sign * 0x8000_0000 + wide_exponent * 0x80_0000 + wide_fraction;
    proof {
        lemma_fields(sign, wide_exponent, wide_fraction, wide);
    }
    Float32 { bits: wide }
}

proof fn lemma_magnitude_bounds(bits: u32)
    ensures
        single_exponent(bits) == 0 ==> single_magnitude(bits) < 0x80_0000,
        single_exponent(bits) > 0 ==> 0x80_0000 * pow2((single_exponent(bits) - 1) as nat)
            <= single_magnitude(bits) < 0x80_0000 * pow2(single_exponent(bits) as nat),
{
    if single_exponent(bits) > 0 {
        let e = (single_exponent(bits) - 1) as nat;
        lemma_pow2_adds(e, 1);
        vstd::arithmetic::power2::lemma2_to64();
        let p = pow2(e) as int;
        vstd::arithmetic::power2::lemma_pow2_pos(e);
        let f = single_fraction(bits);
        assert(0x80_0000 * p <= (0x80_0000 + f) * p < 0x80_0000 * (p * 2)) by (nonlinear_arith)
            requires
                0 <= f < 0x80_0000,
                p > 0,
        ;
    }
}

proof fn lemma_smaller_exponent(a: u32, b: u32)
    requires
        single_exponent(a) < single_exponent(b),
    ensures
        single_magnitude(a) < single_magnitude(b),
{
    lemma_magnitude_bounds(a);
    lemma_magnitude_bounds(b);
    vstd::arithmetic::power2::lemma2_to64();
    let e = single_exponent(b) - 1;
    if single_exponent(a) < e {
        vstd::arithmetic::power2::lemma_pow2_strictly_increases(
            single_exponent(a) as nat,
            e as nat,
        );
    }
}

/// Widening is a function: a half-precision bit pattern has one single-precision
/// counterpart.
pub proof fn lemma_widens_once(half: u16, a: u32, b: u32)
    requires
        widens(half, a),
        widens(half, b),
    ensures
        a == b,
{
    if single_exponent(a) < single_exponent(b) {
        lemma_smaller_exponent(a, b);
    } else if single_exponent(b) < single_exponent(a) {
        lemma_smaller_exponent(b, a);
    } else if 0 < single_exponent(a) < 255 {
        let p = pow2((single_exponent(a) - 1) as nat) as int;
        vstd::arithmetic::power2::lemma_pow2_pos((single_exponent(a) - 1) as nat);
        let f = single_fraction(a);
        let g = single_fraction(b);
        assert(f == g) by (nonlinear_arith)
            requires
                (0x80_0000 + f) * p == (0x80_0000 + g) * p,
                p > 0,
        ;
    }
}

/// How numbers compare, said of their bits: with the sign bit clear a number grows with
/// its bits, with the sign bit set it falls; a number with the sign bit set is less than
/// one without, but for the two zeros; and what is no number compares with nothing.
pub proof fn lemma_less_by_bits(a: Float32, b: Float32)
    ensures
        a.bits <= 0x7f80_0000 && b.bits <= 0x7f80_0000 ==> (a.less(b) <==> a.bits < b.bits) && (
        a.at_most(b) <==> a.bits <= b.bits),
        0x8000_0000 <= a.bits <= 0xff80_0000 && 0x8000_0000 <= b.bits <= 0xff80_0000 ==> (a.less(
            b,
        ) <==> a.bits > b.bits) && (a.at_most(b) <==> a.bits >= b.bits),
        0x8000_0000 <= a.bits <= 0xff80_0000 && b.bits <= 0x7f80_0000 ==> a.at_most(b) && !b.less(a)
            && (a.less(b) <==> !(a.bits == 0x8000_0000 && b.bits == 0)),
        0x7f80_0000 < a.bits < 0x8000_0000 || a.bits > 0xff80_0000 ==> !a.less(b) && !b.less(a)
            && !a.at_most(b) && !b.at_most(a),
{
}

/// How bit patterns stand in the total order, said of the bits.
pub proof fn lemma_total_rank_by_bits(a: Float32, b: Float32)
    ensures
        a.bits < 0x8000_0000 && b.bits < 0x8000_0000 ==> (a.total_rank() < b.total_rank() <==> a.bits
            < b.bits),
        a.bits >= 0x8000_0000 && b.bits >= 0x8000_0000 ==> (a.total_rank() < b.total_rank()
            <==> a.bits > b.bits),
        a.bits >= 0x8000_0000 && b.bits < 0x8000_0000 ==> a.total_rank() < b.total_rank(),
{
}

proof fn lemma_normal_magnitude(half: u16, single: u32)
    requires
        0 < half_exponent(half) < 31,
        single_exponent(single) == half_exponent(half) + 112,
        single_fraction(single) == half_fraction(half) * 0x2000,
    ensures
        single_magnitude(single) == half_magnitude(half) * pow2(125),
{
    let e = half_exponent(half);
    let f = half_fraction(half);
    lemma_pow2_adds((e - 1) as nat, 125);
    lemma_pow2_adds(13, (e + 111) as nat);
    vstd::arithmetic::power2::lemma2_to64();
    let p = pow2((e + 111) as nat) as int;
    assert((0x80_0000 + f * 0x2000) * p == (0x400 + f) * (0x2000 * p)) by (nonlinear_arith);
    let q = pow2((e - 1) as nat) as int;
    let r = pow2(125) as int;
    assert((0x400 + f) * (q * r) == (0x400 + f) * q * r) by (nonlinear_arith);
}

proof fn lemma_small_magnitude(half: u16, single: u32, k: nat)
    requires
        half_exponent(half) == 0,
        k <= 10,
        0x400 <= half_fraction(half) * pow2(k) < 0x800,
        single_exponent(single) == 113 - k,
        single_fraction(single) == (half_fraction(half) * pow2(k) - 0x400) * 0x2000,
    ensures
        single_magnitude(single) == half_magnitude(half) * pow2(125),
{
    let f = half_fraction(half);
    let q = pow2(k) as int;
    let scaled = f * q;
    vstd::arithmetic::power2::lemma2_to64();
    lemma_pow2_adds(13, (112 - k) as nat);
    lemma_pow2_adds(k, (125 - k) as nat);
    let p = pow2((112 - k) as nat) as int;
    assert((0x80_0000 + (scaled - 0x400) * 0x2000) * p == scaled * (0x2000 * p)) by (nonlinear_arith);
    let r = pow2((125 - k) as nat) as int;
    assert(f * q * r == f * (q * r)) by (nonlinear_arith);
}

/// Widening, said of the bits below the sign, which stays: the fraction moves to the
/// front of the wider one and the exponent is counted from the wider bias; zero and
/// infinity stay what they are; and a number too small for a leading one gets it by
/// being doubled until it has one, for each of which the exponent is one less.
pub proof fn lemma_widens_by_bits(half: u16, single: u32, k: nat)
    requires
        widens(half, single),
    ensures
        half >= 0x8000 <==> single >= 0x8000_0000,
        0x400 <= half as int % 0x8000 < 0x7c00 ==> single as int % 0x8000_0000 == half as int % 0x8000
            * 0x2000 + 0x3800_0000,
        half as int % 0x8000 == 0 ==> single as int % 0x8000_0000 == 0,
        half as int % 0x8000 == 0x7c00 ==> single as int % 0x8000_0000 == 0x7f80_0000,
        half as int % 0x8000 > 0x7c00 ==> (Float32 { bits: single }).nan(),
        half as int % 0x8000 < 0x400 && k <= 10 && 0x400 <= half as int % 0x8000 * pow2(k) < 0x800
            ==> single as int % 0x8000_0000 == (113 - k) * 0x80_0000 + (half as int % 0x8000 * pow2(k)
            - 0x400) * 0x2000,
{
    let m = half as int % 0x8000;
    let sign: u32 = if half >= 0x8000 {
        1
    } else {
        0
    };
    if 0x400 <= m < 0x7c00 {
        let exponent = (half_exponent(half) + 112) as u32;
        let fraction = (half_fraction(half) * 0x2000) as u32;
        let other = (sign * 0x8000_0000 + exponent * 0x80_0000 + fraction) as u32;
        lemma_fields(sign, exponent, fraction, other);
        lemma_normal_magnitude(half, other);
        lemma_widens_once(half, single, other);
    } else if m == 0 {
        let other = (sign * 0x8000_0000) as u32;
        lemma_fields(sign, 0, 0, other);
        assert(m * pow2(k) == 0) by (nonlinear_arith)
            requires
                m == 0,
        ;
        assert(half_magnitude(half) * pow2(125) == 0) by (nonlinear_arith)
            requires
                half_magnitude(half) == 0,
        ;
        lemma_widens_once(half, single, other);
    } else if m < 0x400 && k <= 10 && 0x400 <= m * pow2(k) < 0x800 {
        let exponent = (113 - k) as u32;
        let fraction = ((m * pow2(k) - 0x400) * 0x2000) as u32;
        let other = (sign * 0x8000_0000 + exponent * 0x80_0000 + fraction) as u32;
        lemma_fields(sign, exponent, fraction, other);
        lemma_small_magnitude(half, other, k);
        lemma_widens_once(half, single, other);
    }
}

}
