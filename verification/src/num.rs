//! Double-precision numbers as bit patterns.
//!
//! A [`Num`] holds the 64 bits of an IEEE-754 binary64 value. Comparisons,
//! classification, clamping and conversion to integers are done on the bits.

use vstd::arithmetic::div_mod::{
    lemma_div_denominator, lemma_div_is_ordered, lemma_div_multiples_vanish,
    lemma_fundamental_div_mod, lemma_fundamental_div_mod_converse,
};
use vstd::arithmetic::mul::{
    lemma_mul_inequality, lemma_mul_is_associative, lemma_mul_is_commutative,
    lemma_mul_is_distributive_add, lemma_mul_strict_inequality,
};
use vstd::arithmetic::power2::{
    lemma2_to64, lemma2_to64_rest, lemma_pow2_adds, lemma_pow2_pos, lemma_pow2_strictly_increases,
    pow2,
};
use vstd::bits::{lemma_u64_shl_is_mul, lemma_u64_shr_is_div};
use vstd::prelude::*;

verus! {

/// The sign bit.
pub const SIGN: u64 = 0x8000_0000_0000_0000;

/// The bits of positive infinity.
pub const INF: u64 = 0x7ff0_0000_0000_0000;

/// The implicit leading bit of a normal number, and the size of the fraction field.
pub const UNIT: u64 = 0x0010_0000_0000_0000;

/// A binary64 value, given by its bits.
#[derive(Clone, Copy, PartialEq, Eq, Structural, Debug)]
pub struct Num {
    pub bits: u64,
}

/// The value of the nonnegative finite number with bits `mag`, in units of
/// `2^-1074`: every finite number is an integer multiple of that unit.
pub open spec fn scaled_magnitude(mag: int) -> int {
    let e = mag / (UNIT as int);
    let f = mag % (UNIT as int);
    if e == 0 {
        f
    } else {
        (UNIT + f) * pow2((e - 1) as nat)
    }
}

/// `x` limited to the range from `lo` to `hi`.
pub open spec fn saturate(x: int, lo: int, hi: int) -> int {
    if x < lo {
        lo
    } else if x > hi {
        hi
    } else {
        x
    }
}

impl Num {
    /// Whether the sign bit is set.
    pub open spec fn negative(self) -> bool {
        self.bits >= SIGN
    }

    /// The bits without the sign.
    pub open spec fn magnitude(self) -> int {
        if self.bits >= SIGN {
            self.bits - SIGN
        } else {
            self.bits as int
        }
    }

    pub open spec fn nan(self) -> bool {
        self.magnitude() > INF
    }

    pub open spec fn finite(self) -> bool {
        self.magnitude() < INF
    }

    /// An integer that orders all numbers but NaN as their values do; the two
    /// zeros share the key 0.
    pub open spec fn key(self) -> int {
        if self.negative() {
            -self.magnitude()
        } else {
            self.magnitude()
        }
    }

    /// The value of a finite number in units of `2^-1074`.
    pub open spec fn scaled(self) -> int {
        if self.negative() {
            -scaled_magnitude(self.magnitude())
        } else {
            scaled_magnitude(self.magnitude())
        }
    }

    /// `self < other` of floating-point comparison: false where either is NaN.
    pub open spec fn below(self, other: Num) -> bool {
        !self.nan() && !other.nan() && self.key() < other.key()
    }

    /// `self <= other` of floating-point comparison: false where either is NaN.
    pub open spec fn at_most(self, other: Num) -> bool {
        !self.nan() && !other.nan() && self.key() <= other.key()
    }

    /// The absolute value.
    pub open spec fn absolute(self) -> Num {
        Num { bits: self.magnitude() as u64 }
    }

    /// The number with its sign turned.
    pub open spec fn opposite(self) -> Num {
        if self.bits >= SIGN {
            Num { bits: (self.bits - SIGN) as u64 }
        } else {
            Num { bits: (self.bits + SIGN) as u64 }
        }
    }

    /// The larger of two numbers, and the other one where one is NaN.
    pub open spec fn larger(self, other: Num) -> Num {
        if self.nan() || self.below(other) {
            other
        } else {
            self
        }
    }

    /// The smaller of two numbers, and the other one where one is NaN.
    pub open spec fn smaller(self, other: Num) -> Num {
        if self.nan() || other.below(self) {
            other
        } else {
            self
        }
    }

    /// `self` limited to the range from `lo` to `hi`; NaN stays NaN.
    pub open spec fn clamped(self, lo: Num, hi: Num) -> Num {
        if self.below(lo) {
            lo
        } else if hi.below(self) {
            hi
        } else {
            self
        }
    }

    /// The value with its fraction cut off, for a number that is not NaN;
    /// an infinity counts as a value beyond every machine integer.
    pub open spec fn truncated(self) -> int {
        let t = if self.finite() {
            scaled_magnitude(self.magnitude()) / (pow2(1074) as int)
        } else {
            0x1_0000_0000_0000_0000
        };
        if self.negative() {
            -t
        } else {
            t
        }
    }

    /// The value rounded to the nearest integer, halves away from zero; an
    /// infinity counts as a value beyond every machine integer.
    pub open spec fn rounded(self) -> int {
        let t = if self.finite() {
            (2 * scaled_magnitude(self.magnitude()) + pow2(1074)) / (2 * pow2(1074) as int)
        } else {
            0x1_0000_0000_0000_0000
        };
        if self.negative() {
            -t
        } else {
            t
        }
    }

    /// The count that a number stands for: its integer part, 0 where it is
    /// negative or NaN, and at most `usize::MAX`.
    pub open spec fn counted(self) -> int {
        if self.nan() {
            0
        } else {
            saturate(self.truncated(), 0, usize::MAX as int)
        }
    }

    pub fn is_nan(&self) -> (r: bool)
        ensures
            r == self.nan(),
    {
        if self.bits >= SIGN {
            self.bits - SIGN > INF
        } else {
            self.bits > INF
        }
    }

    pub fn is_finite(&self) -> (r: bool)
        ensures
            r == self.finite(),
    {
        if self.bits >= SIGN {
            self.bits - SIGN < INF
        } else {
            self.bits < INF
        }
    }

    /// The order key as a machine integer.
    pub fn order_key(&self) -> (r: i64)
        ensures
            r == self.key(),
    {
        if self.bits >= SIGN {
            -((self.bits - SIGN) as i64)
        } else {
            self.bits as i64
        }
    }

    pub fn lt(&self, other: &Num) -> (r: bool)
        ensures
            r == self.below(*other),
    {
        !self.is_nan() && !other.is_nan() && self.order_key() < other.order_key()
    }

    pub fn le(&self, other: &Num) -> (r: bool)
        ensures
            r == self.at_most(*other),
    {
        !self.is_nan() && !other.is_nan() && self.order_key() <= other.order_key()
    }

    pub fn abs(&self) -> (r: Num)
        ensures
            r == self.absolute(),
    {
        if self.bits >= SIGN {
            Num { bits: self.bits - SIGN }
        } else {
            *self
        }
    }

    pub fn negate(&self) -> (r: Num)
        ensures
            r == self.opposite(),
    {
        if self.bits >= SIGN {
            Num { bits: self.bits - SIGN }
        } else {
            Num { bits: self.bits + SIGN }
        }
    }

    pub fn max(&self, other: &Num) -> (r: Num)
        ensures
            r == self.larger(*other),
    {
        if self.is_nan() || self.lt(other) {
            *other
        } else {
            *self
        }
    }

    pub fn min(&self, other: &Num) -> (r: Num)
        ensures
            r == self.smaller(*other),
    {
        if self.is_nan() || other.lt(self) {
            *other
        } else {
            *self
        }
    }

    pub fn clamp(&self, lo: &Num, hi: &Num) -> (r: Num)
        requires
            lo.at_most(*hi),
        ensures
            r == self.clamped(*lo, *hi),
    {
        if self.lt(lo) {
            *lo
        } else if hi.lt(self) {
            *hi
        } else {
            *self
        }
    }

    /// The absolute value of the truncated number, at most `u64::MAX`.
    fn truncated_magnitude(&self) -> (r: u64)
        requires
            !self.nan(),
        ensures
            r == saturate(if self.negative() { -self.truncated() } else { self.truncated() }, 0, u64::MAX as int),
    {
        let mag: u64 = if self.bits >= SIGN { self.bits - SIGN } else { self.bits };
        let e: u64 = mag / UNIT;
        let f: u64 = mag % UNIT;
        proof {
            lemma2_to64();
            lemma2_to64_rest();
            lemma_scaled_parts(mag as int);
        }
        if mag == INF {
            return u64::MAX;
        }
        if e < 1023 {
            proof {
                lemma_truncate_small(mag as int);
            }
            return 0;
        }
        let whole: u64 = UNIT + f;
        if e <= 1075 {
            let s: u64 = 1075 - e;
            proof {
                lemma_truncate_middle(mag as int);
                lemma_u64_shr_is_div(whole, s);
            }
            whole >> s
        } else if e <= 1086 {
            let s: u64 = e - 1075;
            proof {
                lemma_truncate_large(mag as int);
                assert(whole * pow2(s as nat) <= u64::MAX) by {
                    lemma_pow2_le(s as nat, 11);
                    lemma_mul_inequality(pow2(s as nat) as int, 2048, whole as int);
                    lemma_mul_is_commutative(whole as int, pow2(s as nat) as int);
                }
                lemma_u64_shl_is_mul(whole, s);
            }
            whole << s
        } else {
            proof {
                lemma_truncate_large(mag as int);
                let s = (e - 1075) as nat;
                lemma_pow2_le(12, s);
                lemma_mul_inequality(4096, pow2(s) as int, whole as int);
                lemma_mul_is_commutative(whole as int, pow2(s) as int);
            }
            u64::MAX
        }
    }

    /// Conversion to `i64`: the fraction is cut off, the range saturates, NaN gives 0.
    pub fn to_i64(&self) -> (r: i64)
        ensures
            r == (if self.nan() { 0 } else { saturate(self.truncated(), i64::MIN as int, i64::MAX as int) }),
    {
        if self.is_nan() {
            return 0;
        }
        let t: u64 = self.truncated_magnitude();
        proof {
            lemma_truncated_sign(*self);
        }
        if self.bits >= SIGN {
            if t >= SIGN {
                i64::MIN
            } else {
                -(t as i64)
            }
        } else if t >= SIGN {
            i64::MAX
        } else {
            t as i64
        }
    }

    /// Conversion to `usize`: the fraction is cut off, the range saturates, NaN gives 0.
    pub fn to_usize(&self) -> (r: usize)
        ensures
            r == self.counted(),
    {
        if self.is_nan() {
            return 0;
        }
        proof {
            lemma_truncated_sign(*self);
        }
        if self.bits >= SIGN {
            return 0;
        }
        let t: u64 = self.truncated_magnitude();
        if t > usize::MAX as u64 {
            usize::MAX
        } else {
            t as usize
        }
    }

    /// Rounding to the nearest integer, halves away from zero, then conversion
    /// to `i64`: the range saturates, NaN gives 0.
    pub fn round_to_i64(&self) -> (r: i64)
        ensures
            r == (if self.nan() { 0 } else { saturate(self.rounded(), i64::MIN as int, i64::MAX as int) }),
    {
        if self.is_nan() {
            return 0;
        }
        let t: u64 = self.rounded_magnitude();
        proof {
            lemma_rounded_sign(*self);
        }
        if self.bits >= SIGN {
            if t >= SIGN {
                i64::MIN
            } else {
                -(t as i64)
            }
        } else if t >= SIGN {
            i64::MAX
        } else {
            t as i64
        }
    }

    /// Rounding to the nearest integer, halves away from zero, then conversion
    /// to `usize`: the range saturates, NaN gives 0.
    pub fn round_to_usize(&self) -> (r: usize)
        ensures
            r == (if self.nan() { 0 } else { saturate(self.rounded(), 0, usize::MAX as int) }),
    {
        if self.is_nan() {
            return 0;
        }
        proof {
            lemma_rounded_sign(*self);
        }
        if self.bits >= SIGN {
            return 0;
        }
        let t: u64 = self.rounded_magnitude();
        if t > usize::MAX as u64 {
            usize::MAX
        } else {
            t as usize
        }
    }

    /// The absolute value of the rounded number, at most `u64::MAX`.
    fn rounded_magnitude(&self) -> (r: u64)
        requires
            !self.nan(),
        ensures
            r == saturate(if self.negative() { -self.rounded() } else { self.rounded() }, 0, u64::MAX as int),
    {
        let mag: u64 = if self.bits >= SIGN { self.bits - SIGN } else { self.bits };
        let e: u64 = mag / UNIT;
        let f: u64 = mag % UNIT;
        proof {
            lemma2_to64();
            lemma2_to64_rest();
            lemma_scaled_parts(mag as int);
        }
        if mag == INF {
            return u64::MAX;
        }
        if e < 1022 {
            proof {
                lemma_round_small(mag as int);
            }
            return 0;
        }
        let whole: u64 = UNIT + f;
        if e < 1075 {
            let s: u64 = 1075 - e;
            let half: u64 = 1u64 << (s - 1);
            proof {
                lemma_pow2_le((s - 1) as nat, 52);
                lemma_u64_shl_is_mul(1, (s - 1) as u64);
                lemma_round_middle(mag as int);
                lemma_u64_shr_is_div((whole + half) as u64, s);
            }
            (whole + half) >> s
        } else {
            proof {
                lemma_round_large(mag as int);
            }
            self.truncated_magnitude()
        }
    }
}

proof fn lemma_pow2_le(a: nat, b: nat)
    requires
        a <= b,
    ensures
        pow2(a) <= pow2(b),
{
    if a < b {
        lemma_pow2_strictly_increases(a, b);
    }
}

/// Exponent and fraction fields of a magnitude below infinity.
proof fn lemma_scaled_parts(mag: int)
    requires
        0 <= mag < SIGN,
    ensures
        mag == (mag / (UNIT as int)) * UNIT + mag % (UNIT as int),
        0 <= mag % (UNIT as int) < UNIT,
        0 <= mag / (UNIT as int) <= 2047,
        mag < INF <==> mag / (UNIT as int) < 2047,
        scaled_magnitude(mag) >= 0,
{
    let e = mag / (UNIT as int);
    lemma_fundamental_div_mod(mag, UNIT as int);
    if e >= 1 {
        lemma_pow2_pos((e - 1) as nat);
        assert((UNIT + mag % (UNIT as int)) * pow2((e - 1) as nat) >= 0) by (nonlinear_arith)
            requires
                UNIT + mag % (UNIT as int) >= 0,
                pow2((e - 1) as nat) > 0,
        ;
    }
}

proof fn lemma_truncate_small(mag: int)
    requires
        0 <= mag < SIGN,
        mag / (UNIT as int) < 1023,
    ensures
        scaled_magnitude(mag) / (pow2(1074) as int) == 0,
{
    lemma_scaled_parts(mag);
    lemma2_to64_rest();
    let e = mag / (UNIT as int);
    let f = mag % (UNIT as int);
    lemma_pow2_pos(1074);
    if e == 0 {
        lemma_pow2_le(52, 1074);
    } else {
        let p = pow2((e - 1) as nat) as int;
        lemma_pow2_le((e - 1) as nat, 1021);
        lemma_pow2_pos((e - 1) as nat);
        lemma_mul_strict_inequality(UNIT + f, 2 * UNIT, p);
        lemma_pow2_adds(53, 1021);
        lemma_mul_inequality(p, pow2(1021) as int, 2 * UNIT);
        lemma_mul_is_commutative(2 * UNIT, p);
        lemma_mul_is_commutative(2 * UNIT, pow2(1021) as int);
    }
    lemma_fundamental_div_mod_converse(scaled_magnitude(mag), pow2(1074) as int, 0, scaled_magnitude(mag));
}

proof fn lemma_truncate_middle(mag: int)
    requires
        0 <= mag < INF,
        1023 <= mag / (UNIT as int) <= 1075,
    ensures
        scaled_magnitude(mag) / (pow2(1074) as int) == (UNIT + mag % (UNIT as int)) / (pow2(
            (1075 - mag / (UNIT as int)) as nat,
        ) as int),
{
    lemma_scaled_parts(mag);
    let e = mag / (UNIT as int);
    let w = UNIT + mag % (UNIT as int);
    let p = pow2((e - 1) as nat) as int;
    let q = pow2((1075 - e) as nat) as int;
    lemma_pow2_adds((e - 1) as nat, (1075 - e) as nat);
    lemma_pow2_pos((e - 1) as nat);
    lemma_pow2_pos((1075 - e) as nat);
    lemma_div_denominator(w * p, p, q);
    lemma_div_multiples_vanish(w, p);
    lemma_mul_is_commutative(w, p);
}

proof fn lemma_truncate_large(mag: int)
    requires
        0 <= mag < INF,
        1075 <= mag / (UNIT as int),
    ensures
        scaled_magnitude(mag) / (pow2(1074) as int) == (UNIT + mag % (UNIT as int)) * pow2(
            (mag / (UNIT as int) - 1075) as nat,
        ),
{
    lemma_scaled_parts(mag);
    let e = mag / (UNIT as int);
    let w = UNIT + mag % (UNIT as int);
    let p = pow2(1074) as int;
    let q = pow2((e - 1075) as nat) as int;
    lemma_pow2_adds((e - 1075) as nat, 1074);
    lemma_pow2_pos(1074);
    lemma_mul_is_associative(w, q, p);
    lemma_div_multiples_vanish(w * q, p);
    lemma_mul_is_commutative(w * q, p);
}

proof fn lemma_round_small(mag: int)
    requires
        0 <= mag < SIGN,
        mag / (UNIT as int) < 1022,
    ensures
        (2 * scaled_magnitude(mag) + pow2(1074)) / (2 * pow2(1074) as int) == 0,
{
    lemma_scaled_parts(mag);
    lemma2_to64_rest();
    let e = mag / (UNIT as int);
    let f = mag % (UNIT as int);
    let s = scaled_magnitude(mag);
    lemma_pow2_pos(1074);
    lemma_pow2_adds(1, 1073);
    lemma2_to64();
    if e == 0 {
        lemma_pow2_le(52, 1073);
    } else {
        let p = pow2((e - 1) as nat) as int;
        lemma_pow2_le((e - 1) as nat, 1020);
        lemma_pow2_pos((e - 1) as nat);
        lemma_mul_strict_inequality(UNIT + f, 2 * UNIT, p);
        lemma_pow2_adds(53, 1020);
        lemma_mul_inequality(p, pow2(1020) as int, 2 * UNIT);
        lemma_mul_is_commutative(2 * UNIT, p);
        lemma_mul_is_commutative(2 * UNIT, pow2(1020) as int);
    }
    lemma_fundamental_div_mod_converse(2 * s + pow2(1074), 2 * pow2(1074) as int, 0, 2 * s + pow2(1074));
}

proof fn lemma_round_middle(mag: int)
    requires
        0 <= mag < INF,
        1022 <= mag / (UNIT as int) < 1075,
    ensures
        (2 * scaled_magnitude(mag) + pow2(1074)) / (2 * pow2(1074) as int) == (UNIT + mag % (UNIT as int) + pow2(
            (1074 - mag / (UNIT as int)) as nat,
        )) / (pow2((1075 - mag / (UNIT as int)) as nat) as int),
{
    lemma_scaled_parts(mag);
    lemma2_to64();
    let e = mag / (UNIT as int);
    let w = UNIT + mag % (UNIT as int);
    let p = pow2((e - 1) as nat) as int;
    let q = pow2((1075 - e) as nat) as int;
    let h = pow2((1074 - e) as nat) as int;
    lemma_pow2_adds((e - 1) as nat, (1075 - e) as nat);
    lemma_pow2_adds(1, (1074 - e) as nat);
    lemma_pow2_pos((e - 1) as nat);
    lemma_pow2_pos((1075 - e) as nat);
    let u = pow2(1074) as int;
    assert(2 * (w * p) + u == (2 * p) * (w + h)) by (nonlinear_arith)
        requires
            u == p * q,
            q == 2 * h,
    ;
    assert(2 * u == (2 * p) * q) by (nonlinear_arith)
        requires
            u == p * q,
    ;
    lemma_div_denominator((2 * p) * (w + h), 2 * p, q);
    lemma_div_multiples_vanish(w + h, 2 * p);
}

proof fn lemma_round_large(mag: int)
    requires
        0 <= mag < INF,
        1075 <= mag / (UNIT as int),
    ensures
        (2 * scaled_magnitude(mag) + pow2(1074)) / (2 * pow2(1074) as int) == scaled_magnitude(mag) / (pow2(
            1074,
        ) as int),
{
    lemma_truncate_large(mag);
    lemma_scaled_parts(mag);
    let e = mag / (UNIT as int);
    let w = UNIT + mag % (UNIT as int);
    let u = pow2(1074) as int;
    let q = pow2((e - 1075) as nat) as int;
    lemma_pow2_adds((e - 1075) as nat, 1074);
    lemma_pow2_pos(1074);
    lemma_mul_is_associative(w, q, u);
    let t = w * q;
    assert(2 * (t * u) + u == t * (2 * u) + u) by (nonlinear_arith);
    lemma_fundamental_div_mod_converse(2 * scaled_magnitude(mag) + u, 2 * u, t, u);
}

proof fn lemma_truncated_sign(a: Num)
    ensures
        a.negative() ==> a.truncated() <= 0,
        !a.negative() ==> a.truncated() >= 0,
{
    lemma_scaled_parts(a.magnitude());
    lemma_pow2_pos(1074);
    lemma_div_is_ordered(0, scaled_magnitude(a.magnitude()), pow2(1074) as int);
}

proof fn lemma_rounded_sign(a: Num)
    ensures
        a.negative() ==> a.rounded() <= 0,
        !a.negative() ==> a.rounded() >= 0,
{
    lemma_scaled_parts(a.magnitude());
    lemma_pow2_pos(1074);
    lemma_div_is_ordered(0, 2 * scaled_magnitude(a.magnitude()) + pow2(1074), 2 * pow2(1074) as int);
}

proof fn lemma_scaled_increases(a: int, b: int)
    requires
        0 <= a < b < INF,
    ensures
        scaled_magnitude(a) < scaled_magnitude(b),
{
    lemma_scaled_parts(a);
    lemma_scaled_parts(b);
    lemma2_to64();
    let u = UNIT as int;
    let ea = a / u;
    let eb = b / u;
    let fa = a % u;
    let fb = b % u;
    assert(ea <= eb) by {
        lemma_div_is_ordered(a, b, u);
    }
    if ea == eb {
        assert(fa < fb);
        if eb > 0 {
            lemma_pow2_pos((eb - 1) as nat);
            lemma_mul_strict_inequality(u + fa, u + fb, pow2((eb - 1) as nat) as int);
        }
    } else {
        let pb = pow2((eb - 1) as nat) as int;
        lemma_pow2_pos((eb - 1) as nat);
        lemma_mul_inequality(u, u + fb, pb);
        lemma_mul_inequality(1, pb, u);
        lemma_mul_is_commutative(u, pb);
        if ea > 0 {
            let pa = pow2((ea - 1) as nat) as int;
            lemma_pow2_pos((ea - 1) as nat);
            lemma_mul_strict_inequality(u + fa, 2 * u, pa);
            lemma_pow2_adds(1, (ea - 1) as nat);
            lemma_pow2_le(ea as nat, (eb - 1) as nat);
            lemma_mul_inequality(pow2(ea as nat) as int, pb, u);
            assert((2 * u) * pa == (2 * pa) * u) by (nonlinear_arith);
        }
    }
}

/// The order key orders finite numbers as their values: one is less than the
/// other by its key exactly where its value is less.
pub proof fn law_key_orders_values(a: Num, b: Num)
    requires
        a.finite(),
        b.finite(),
    ensures
        a.below(b) <==> a.scaled() < b.scaled(),
        a.at_most(b) <==> a.scaled() <= b.scaled(),
{
    let ma = a.magnitude();
    let mb = b.magnitude();
    lemma_scaled_parts(ma);
    lemma_scaled_parts(mb);
    lemma_scaled_parts(0);
    if ma < mb {
        lemma_scaled_increases(ma, mb);
    }
    if mb < ma {
        lemma_scaled_increases(mb, ma);
    }
    if ma > 0 {
        lemma_scaled_increases(0, ma);
    }
    if mb > 0 {
        lemma_scaled_increases(0, mb);
    }
}

/// Holding a number to bounds is stable: a number so held lies within them, and
/// is not changed when it is held to them again.
pub proof fn law_clamping_is_stable(x: Num, lo: Num, hi: Num)
    requires
        lo.at_most(hi),
    ensures
        x.clamped(lo, hi).clamped(lo, hi) == x.clamped(lo, hi),
        !x.nan() ==> lo.at_most(x.clamped(lo, hi)) && x.clamped(lo, hi).at_most(hi),
        x.nan() ==> x.clamped(lo, hi) == x,
{
}

/// The product, `usize::MAX` where it is larger.
pub open spec fn capped_product(a: int, b: int) -> int {
    if a * b > usize::MAX {
        usize::MAX as int
    } else {
        a * b
    }
}

pub fn multiply_capped(a: usize, b: usize) -> (r: usize)
    ensures
        r == capped_product(a as int, b as int),
{
    match a.checked_mul(b) {
        Some(n) => n,
        None => usize::MAX,
    }
}

/// What a bit pattern is: with an exponent of ones it is an infinity where the
/// fraction is zero, and no number otherwise; with any other exponent it is
/// finite. The sign bit turns the value, and one more in the exponent of a normal
/// number doubles it.
pub proof fn law_bits_are_numbers(a: Num, up: Num, turned: Num)
    requires
        a.bits < SIGN,
        turned.bits == a.bits + 0x8000_0000_0000_0000,
        up.bits == a.bits + 0x0010_0000_0000_0000,
    ensures
        a.finite() <==> a.bits < 0x7ff0_0000_0000_0000,
        a.nan() <==> a.bits > 0x7ff0_0000_0000_0000,
        turned.finite() == a.finite(),
        turned.nan() == a.nan(),
        turned.scaled() == -a.scaled(),
        a.scaled() >= 0,
        a.bits > 0 ==> a.scaled() > 0,
        a.bits < 0x0010_0000_0000_0000 ==> a.scaled() == a.bits,
        0x0010_0000_0000_0000 <= a.bits && a.finite() && up.finite() ==> up.scaled() == 2 * a.scaled(),
{
    lemma_scaled_parts(a.magnitude());
    if a.bits > 0 && a.finite() {
        lemma_scaled_parts(0);
        lemma_scaled_increases(0, a.magnitude());
    }
    let e = a.bits as int / UNIT as int;
    let f = a.bits as int % UNIT as int;
    assert((a.bits + UNIT) / UNIT as int == e + 1 && (a.bits + UNIT) % UNIT as int == f);
    if e > 0 {
        vstd::arithmetic::power2::lemma_pow2_unfold(e as nat);
        let p = pow2((e - 1) as nat) as int;
        let u = UNIT + f;
        assert(u * (2 * p) == 2 * (u * p)) by (nonlinear_arith);
        lemma_pow2_pos((e - 1) as nat);
        assert(u * p > 0) by (nonlinear_arith)
            requires
                u > 0,
                p > 0,
        ;
    }
}

/// Truncation drops the fraction and nothing else: what is left lies no further
/// from zero than the number, and nearer to it than one.
pub proof fn law_truncation_drops_the_fraction(a: Num)
    requires
        a.finite(),
    ensures
        !a.negative() ==> a.truncated() * pow2(1074) <= a.scaled() < (a.truncated() + 1) * pow2(1074),
        a.negative() ==> (a.truncated() - 1) * pow2(1074) < a.scaled() <= a.truncated() * pow2(1074),
        a.counted() == if a.truncated() < 0 {
            0
        } else if a.truncated() > usize::MAX {
            usize::MAX as int
        } else {
            a.truncated()
        },
{
    let u = pow2(1074) as int;
    let m = scaled_magnitude(a.magnitude());
    lemma_pow2_pos(1074);
    lemma_scaled_parts(a.magnitude());
    lemma_fundamental_div_mod(m, u);
    let t = m / u;
    assert(t * u == u * t && (t + 1) * u == t * u + u && (-t) * u == -(t * u) && (-t - 1) * u == -(t * u) - u)
        by (nonlinear_arith);
}

/// Rounding gives the nearest whole number, of two as near the one further from
/// zero.
pub proof fn law_rounding_is_to_the_nearest(a: Num)
    requires
        a.finite(),
    ensures
        !a.negative() ==> (2 * a.rounded() - 1) * pow2(1074) <= 2 * a.scaled() < (2 * a.rounded() + 1) * pow2(1074),
        a.negative() ==> (2 * a.rounded() - 1) * pow2(1074) < 2 * a.scaled() <= (2 * a.rounded() + 1) * pow2(1074),
{
    let u = pow2(1074) as int;
    let m = scaled_magnitude(a.magnitude());
    lemma_pow2_pos(1074);
    lemma_scaled_parts(a.magnitude());
    let x = 2 * m + u;
    let d = 2 * u;
    lemma_fundamental_div_mod(x, d);
    let t = x / d;
    assert(d * t == 2 * (u * t) && u * t == t * u) by (nonlinear_arith)
        requires
            d == 2 * u,
    ;
    assert((2 * t - 1) * u == 2 * (t * u) - u && (2 * t + 1) * u == 2 * (t * u) + u && (2 * (-t) - 1) * u == -2 * (t * u)
        - u && (2 * (-t) + 1) * u == -2 * (t * u) + u) by (nonlinear_arith);
}

/// Comparisons are false of what is no number; the larger and the smaller of two
/// numbers are among them and on their side of both.
pub proof fn law_numbers_are_compared(a: Num, b: Num)
    ensures
        a.nan() || b.nan() ==> !a.below(b) && !a.at_most(b),
        !a.nan() && !b.nan() ==> (a.below(b) <==> !b.at_most(a)),
        a.nan() ==> a.larger(b) == b && a.smaller(b) == b,
        b.nan() ==> a.larger(b) == a || a.nan(),
        !a.nan() && !b.nan() ==> a.at_most(a.larger(b)) && b.at_most(a.larger(b)) && (a.larger(b) == a || a.larger(b)
            == b),
        !a.nan() && !b.nan() ==> a.smaller(b).at_most(a) && a.smaller(b).at_most(b) && (a.smaller(b) == a
            || a.smaller(b) == b),
{
}

/// A limited value lies in the range, and is the value itself where that does.
pub proof fn law_saturated_values_lie_in_range(x: int, lo: int, hi: int)
    requires
        lo <= hi,
    ensures
        lo <= saturate(x, lo, hi) <= hi,
        lo <= x <= hi ==> saturate(x, lo, hi) == x,
        x < lo ==> saturate(x, lo, hi) == lo,
        x > hi ==> saturate(x, lo, hi) == hi,
{
}

/// Rounding keeps the order of numbers.
pub proof fn law_rounding_rises(a: Num, b: Num)
    requires
        a.finite(),
        b.finite(),
        a.scaled() <= b.scaled(),
    ensures
        a.rounded() <= b.rounded(),
{
    law_rounding_is_to_the_nearest(a);
    law_rounding_is_to_the_nearest(b);
    lemma_pow2_pos(1074);
    let u = pow2(1074) as int;
    let (x, y) = (a.rounded(), b.rounded());
    if x > y {
        if x > y + 1 {
            assert((2 * x - 1) * u > (2 * y + 1) * u) by (nonlinear_arith)
                requires
                    x > y + 1,
                    u > 0,
            ;
        } else {
            assert((2 * x - 1) * u == (2 * y + 1) * u) by (nonlinear_arith)
                requires
                    x == y + 1,
            ;
            if a.negative() == b.negative() {
            } else if a.negative() {
                assert(x <= 0 && y >= 0) by {
                    lemma_rounded_sign(a);
                    lemma_rounded_sign(b);
                }
            } else {
                lemma_scaled_parts(a.magnitude());
                lemma_scaled_parts(b.magnitude());
                lemma_rounded_sign(a);
                assert(a.scaled() == 0 && b.scaled() == 0);
                assert((2 * x - 1) * u <= 0 ==> x <= 0) by (nonlinear_arith)
                    requires
                        u > 0,
                ;
                assert((2 * y + 1) * u >= 0 ==> y >= 0) by (nonlinear_arith)
                    requires
                        u > 0,
                ;
            }
        }
    }
}

/// A size loses its sign alone, and an opposite turns it; products stop at the largest that
/// can be held.
pub proof fn law_signs_are_turned(a: Num, x: int, y: int)
    requires
        0 <= x,
        0 <= y,
    ensures
        a.absolute().scaled() == if a.scaled() < 0 {
            -a.scaled()
        } else {
            a.scaled()
        },
        a.opposite().scaled() == -a.scaled(),
        a.opposite().opposite() == a,
        a.absolute().finite() == a.finite() && a.opposite().finite() == a.finite(),
        a.absolute().nan() == a.nan() && a.opposite().nan() == a.nan(),
        x * y <= usize::MAX ==> capped_product(x, y) == x * y,
        x * y > usize::MAX ==> capped_product(x, y) == usize::MAX,
{
    let m = a.magnitude();
    assert(scaled_magnitude(m) >= 0) by {
        let e = m / (UNIT as int);
        let f = m % (UNIT as int);
        if e > 0 {
            lemma_pow2_pos((e - 1) as nat);
            assert((UNIT + f) * pow2((e - 1) as nat) >= 0) by (nonlinear_arith)
                requires
                    UNIT + f >= 0,
                    pow2((e - 1) as nat) > 0,
            ;
        }
    }
    assert(a.absolute().magnitude() == m);
    assert(a.opposite().magnitude() == m);
}

} // verus!
