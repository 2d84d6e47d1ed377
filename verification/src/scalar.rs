//! Single-precision numbers held as bit patterns.
//!
//! A [`Scalar`] is the 32-bit image of an IEEE-754 binary32 number. The library
//! never adds or multiplies such numbers; it classifies them, orders them and
//! reads their exact value as `significand * 2^exponent`.

use vstd::prelude::*;
use vstd::arithmetic::power2::{
    lemma2_to64, lemma_pow2_strictly_increases, lemma_pow2_unfold, pow2,
};

verus! {

/// Bit pattern of the sign bit alone; also the count of non-negative patterns.
pub const SIGN_BIT: u32 = 0x8000_0000;

/// Magnitude of the infinities; larger magnitudes are NaN.
pub const INFINITY_MAGNITUDE: u32 = 0x7F80_0000;

/// Weight of the exponent field inside the magnitude; the implicit leading one.
pub const HIDDEN_BIT: u32 = 0x0080_0000;

/// The first natural number whose successor has no pattern of its own:
/// counting in steps of one stops here.
pub const COUNT_LIMIT: usize = 0x100_0000;

/// A binary32 number held as its bit pattern.
///
/// `==` on scalars compares bit patterns: `+0` and `-0` differ, and a NaN
/// equals itself. Numeric comparison is [`Scalar::lt`] and [`Scalar::le`].
#[derive(Clone, Copy, Debug, PartialEq, Eq, Structural)]
pub struct Scalar {
    pub bits: u32,
}

/// A point or direction in space, one scalar per axis.
#[derive(Clone, Copy, Debug, PartialEq, Eq, Structural)]
pub struct Vec3 {
    pub x: Scalar,
    pub y: Scalar,
    pub z: Scalar,
}

/// A texture coordinate.
#[derive(Clone, Copy, Debug, PartialEq, Eq, Structural)]
pub struct Vec2 {
    pub x: Scalar,
    pub y: Scalar,
}

impl Scalar {
    /// The pattern without its sign bit.
    pub open spec fn magnitude(self) -> nat {
        (self.bits % SIGN_BIT) as nat
    }

    /// Whether the sign bit is set (true also of `-0` and of negative NaNs).
    pub open spec fn sign_negative(self) -> bool {
        self.bits >= SIGN_BIT
    }

    pub open spec fn is_nan_spec(self) -> bool {
        self.magnitude() > INFINITY_MAGNITUDE
    }

    pub open spec fn is_infinite_spec(self) -> bool {
        self.magnitude() == INFINITY_MAGNITUDE
    }

    pub open spec fn is_finite_spec(self) -> bool {
        self.magnitude() < INFINITY_MAGNITUDE
    }

    /// Position of a number on the number line, up to a monotone relabelling:
    /// for numbers `a` and `b` that are not NaN, `a < b` exactly when
    /// `a.key() < b.key()`, and both zeros have key 0.
    pub open spec fn key(self) -> int {
        if self.sign_negative() {
            -(self.magnitude() as int)
        } else {
            self.magnitude() as int
        }
    }

    /// Numeric `<`: false as soon as either side is NaN.
    pub open spec fn lt_spec(self, other: Scalar) -> bool {
        !self.is_nan_spec() && !other.is_nan_spec() && self.key() < other.key()
    }

    /// Numeric `<=`: false as soon as either side is NaN.
    pub open spec fn le_spec(self, other: Scalar) -> bool {
        !self.is_nan_spec() && !other.is_nan_spec() && self.key() <= other.key()
    }

    /// Strictly greater than zero, infinity included.
    pub open spec fn is_positive_spec(self) -> bool {
        !self.is_nan_spec() && self.key() > 0
    }

    /// The exponent field.
    pub open spec fn biased_exponent(self) -> nat {
        self.magnitude() / (HIDDEN_BIT as nat)
    }

    /// The fraction field.
    pub open spec fn fraction(self) -> nat {
        self.magnitude() % (HIDDEN_BIT as nat)
    }

    /// Integer significand of a finite number: its absolute value is
    /// `significand() * 2^exponent()`.
    pub open spec fn significand(self) -> nat {
        if self.biased_exponent() == 0 {
            self.fraction()
        } else {
            self.fraction() + HIDDEN_BIT as nat
        }
    }

    /// Power of two that scales the significand of a finite number.
    pub open spec fn exponent(self) -> int {
        if self.biased_exponent() == 0 {
            -149
        } else {
            self.biased_exponent() as int - 150
        }
    }

    /// The larger of two numbers; a NaN loses against a number. Of two equal
    /// numbers (the two zeros among them) the first is kept.
    pub open spec fn max_spec(self, other: Scalar) -> Scalar {
        if self.is_nan_spec() {
            other
        } else if other.is_nan_spec() {
            self
        } else if self.key() < other.key() {
            other
        } else {
            self
        }
    }

    /// Whether this is the natural number `v`, held exactly and with a clear
    /// sign bit.
    pub open spec fn is_count(self, v: nat) -> bool {
        &&& !self.sign_negative()
        &&& self.is_finite_spec()
        &&& if self.exponent() >= 0 {
            self.significand() * pow2(self.exponent() as nat) == v
        } else {
            self.significand() == v * pow2((-self.exponent()) as nat)
        }
    }

    /// The number `n`, or `COUNT_LIMIT` where `n` is greater: what counting
    /// up from zero in steps of one arrives at after `n` steps.
    pub fn from_count(n: usize) -> (r: Scalar)
        ensures
            r.is_count(
                if n <= COUNT_LIMIT {
                    n as nat
                } else {
                    COUNT_LIMIT as nat
                },
            ),
    {
        proof {
            lemma2_to64();
        }
        if n == 0 {
            let r = Scalar { bits: 0 };
            assert(0 * pow2(149) == 0) by (nonlinear_arith);
            return r;
        }
        if n >= COUNT_LIMIT {
            let r = Scalar { bits: 0x4B80_0000 };
            assert(r.biased_exponent() == 151);
            assert(r.fraction() == 0);
            assert(0x80_0000 * pow2(1) == 0x100_0000) by (nonlinear_arith)
                requires
                    pow2(1) == 2,
            ;
            return r;
        }
        let mut m: u32 = n as u32;
        let mut shift: u32 = 0;
        assert(n * pow2(0) == n) by (nonlinear_arith)
            requires
                pow2(0) == 1,
        ;
        while m < HIDDEN_BIT
            invariant
                1 <= n < COUNT_LIMIT,
                1 <= m < 2 * HIDDEN_BIT,
                m == n * pow2(shift as nat),
                shift <= 23,
                pow2(23) == 0x80_0000,
            decreases 2 * HIDDEN_BIT - m,
        {
            proof {
                if shift == 23 {
                    assert(n * pow2(23) >= pow2(23)) by (nonlinear_arith)
                        requires
                            n >= 1,
                    ;
                }
                lemma_pow2_unfold((shift + 1) as nat);
                assert(n * (2 * pow2(shift as nat)) == 2 * (n * pow2(shift as nat)))
                    by (nonlinear_arith);
            }
            m = m * 2;
            shift = shift + 1;
        }
        let r = Scalar { bits: (150 - shift) * HIDDEN_BIT + (m - HIDDEN_BIT) };
        assert(r.biased_exponent() == 150 - shift);
        assert(r.fraction() == m - HIDDEN_BIT);
        r
    }

    pub fn from_bits(bits: u32) -> (r: Scalar)
        ensures
            r.bits == bits,
    {
        Scalar { bits }
    }

    pub fn to_bits(&self) -> (r: u32)
        ensures
            r == self.bits,
    {
        self.bits
    }

    /// Positive zero.
    pub fn zero() -> (r: Scalar)
        ensures
            r.bits == 0,
            r.key() == 0,
            !r.is_nan_spec(),
    {
        Scalar { bits: 0 }
    }

    fn magnitude_bits(&self) -> (r: u32)
        ensures
            r == self.magnitude(),
            r < SIGN_BIT,
    {
        self.bits % SIGN_BIT
    }

    pub fn is_sign_negative(&self) -> (r: bool)
        ensures
            r == self.sign_negative(),
    {
        self.bits >= SIGN_BIT
    }

    pub fn is_nan(&self) -> (r: bool)
        ensures
            r == self.is_nan_spec(),
    {
        self.magnitude_bits() > INFINITY_MAGNITUDE
    }

    pub fn is_infinite(&self) -> (r: bool)
        ensures
            r == self.is_infinite_spec(),
    {
        self.magnitude_bits() == INFINITY_MAGNITUDE
    }

    pub fn is_finite(&self) -> (r: bool)
        ensures
            r == self.is_finite_spec(),
    {
        self.magnitude_bits() < INFINITY_MAGNITUDE
    }

    pub fn is_positive(&self) -> (r: bool)
        ensures
            r == self.is_positive_spec(),
    {
        !self.is_nan() && !self.is_sign_negative() && self.magnitude_bits() > 0
    }

    /// The position of the number on the number line as a machine integer
    /// (see [`Scalar::key`]).
    pub fn order_key(&self) -> (r: i64)
        ensures
            r == self.key(),
    {
        let m: i64 = self.magnitude_bits() as i64;
        if self.is_sign_negative() {
            -m
        } else {
            m
        }
    }

    pub fn lt(&self, other: &Scalar) -> (r: bool)
        ensures
            r == self.lt_spec(*other),
    {
        !self.is_nan() && !other.is_nan() && self.order_key() < other.order_key()
    }

    pub fn le(&self, other: &Scalar) -> (r: bool)
        ensures
            r == self.le_spec(*other),
    {
        !self.is_nan() && !other.is_nan() && self.order_key() <= other.order_key()
    }

    pub fn max(self, other: Scalar) -> (r: Scalar)
        ensures
            r == self.max_spec(other),
    {
        if self.is_nan() {
            other
        } else if other.is_nan() {
            self
        } else if self.order_key() < other.order_key() {
            other
        } else {
            self
        }
    }

    /// The number held to the interval from `lo` to `hi`; a NaN stays a NaN.
    pub open spec fn clamp_spec(self, lo: Scalar, hi: Scalar) -> Scalar {
        if self.lt_spec(lo) {
            lo
        } else if hi.lt_spec(self) {
            hi
        } else {
            self
        }
    }

    /// The number held to the interval from `lo` to `hi`; a NaN stays a NaN.
    pub fn clamp(self, lo: Scalar, hi: Scalar) -> (r: Scalar)
        requires
            lo.le_spec(hi),
        ensures
            r == self.clamp_spec(lo, hi),
            !self.is_nan_spec() ==> lo.le_spec(r) && r.le_spec(hi),
    {
        if self.lt(&lo) {
            lo
        } else if hi.lt(&self) {
            hi
        } else {
            self
        }
    }

    /// Significand and exponent of a finite number.
    pub fn decompose(&self) -> (r: (u32, i32))
        requires
            self.is_finite_spec(),
        ensures
            r.0 == self.significand(),
            r.1 == self.exponent(),
            r.0 < 2 * HIDDEN_BIT,
            -149 <= r.1 <= 104,
    {
        let m: u32 = self.magnitude_bits();
        let biased: u32 = m / HIDDEN_BIT;
        let fraction: u32 = m % HIDDEN_BIT;
        if biased == 0 {
            (fraction, -149)
        } else {
            (fraction + HIDDEN_BIT, biased as i32 - 150)
        }
    }
}

impl Vec3 {
    pub fn new(x: Scalar, y: Scalar, z: Scalar) -> (r: Vec3)
        ensures
            r == (Vec3 { x, y, z }),
    {
        Vec3 { x, y, z }
    }

    /// No component is NaN or infinite.
    pub open spec fn is_finite_spec(self) -> bool {
        self.x.is_finite_spec() && self.y.is_finite_spec() && self.z.is_finite_spec()
    }

    pub fn is_finite(&self) -> (r: bool)
        ensures
            r == self.is_finite_spec(),
    {
        self.x.is_finite() && self.y.is_finite() && self.z.is_finite()
    }
}

impl Scalar {
    /// The absolute value of a finite number in units of `2^-149`, in which
    /// every finite number is whole.
    pub open spec fn scaled_value(self) -> nat {
        self.significand() * pow2((self.exponent() + 149) as nat)
    }
}

/// Of two finite numbers, the one with the greater bit pattern (the sign left
/// out) is the greater in absolute value.
pub proof fn lemma_magnitude_rises_with_value(a: Scalar, b: Scalar)
    requires
        a.is_finite_spec(),
        b.is_finite_spec(),
        a.magnitude() < b.magnitude(),
    ensures
        a.scaled_value() < b.scaled_value(),
{
    lemma2_to64();
    let ea = a.biased_exponent();
    let eb = b.biased_exponent();
    let ka = (a.exponent() + 149) as nat;
    let kb = (b.exponent() + 149) as nat;
    let sa = a.significand() as int;
    let sb = b.significand() as int;
    let wa = pow2(ka) as int;
    let wb = pow2(kb) as int;
    vstd::arithmetic::power2::lemma_pow2_pos(ka);
    vstd::arithmetic::power2::lemma_pow2_pos(kb);
    assert(a.magnitude() == ea * 0x80_0000 + a.fraction());
    assert(b.magnitude() == eb * 0x80_0000 + b.fraction());
    if ea == eb {
        assert(sa < sb);
        assert(sa * wa < sb * wb) by (nonlinear_arith)
            requires
                sa < sb,
                wa == wb,
                wa > 0,
        ;
    } else {
        assert(ea < eb);
        assert(kb == eb - 1);
        if ea == 0 {
            assert(sa * wa < 0x80_0000) by (nonlinear_arith)
                requires
                    0 <= sa < 0x80_0000,
                    wa == 1,
            ;
            assert(sb * wb >= 0x80_0000) by (nonlinear_arith)
                requires
                    sb >= 0x80_0000,
                    wb >= 1,
            ;
        } else {
            assert(ka == ea - 1);
            vstd::arithmetic::power2::lemma_pow2_unfold(ka + 1);
            if ka + 1 < kb {
                lemma_pow2_strictly_increases(ka + 1, kb);
            }
            let wa2 = pow2(ka + 1) as int;
            assert(sa * wa < sb * wb) by (nonlinear_arith)
                requires
                    0 <= sa < 0x100_0000,
                    sb >= 0x80_0000,
                    wa2 == 2 * wa,
                    wa2 <= wb,
                    wa > 0,
            ;
        }
    }
}

/// The bit patterns of finite numbers, the sign left out, are ordered as
/// their absolute values are: `key` puts numbers in their numeric order.
pub proof fn lemma_magnitude_orders_values(a: Scalar, b: Scalar)
    requires
        a.is_finite_spec(),
        b.is_finite_spec(),
    ensures
        a.magnitude() < b.magnitude() <==> a.scaled_value() < b.scaled_value(),
        a.magnitude() == b.magnitude() ==> a.scaled_value() == b.scaled_value(),
{
    if a.magnitude() < b.magnitude() {
        lemma_magnitude_rises_with_value(a, b);
    }
    if b.magnitude() < a.magnitude() {
        lemma_magnitude_rises_with_value(b, a);
    }
}

/// Numeric order is transitive, and irreflexive, on numbers.
pub proof fn lemma_lt_is_strict_order(a: Scalar, b: Scalar, c: Scalar)
    ensures
        !a.lt_spec(a),
        a.lt_spec(b) && b.lt_spec(c) ==> a.lt_spec(c),
        a.lt_spec(b) ==> !b.lt_spec(a),
        !a.is_nan_spec() && !b.is_nan_spec() ==> (a.le_spec(b) <==> !b.lt_spec(a)),
{
}

} // verus!
