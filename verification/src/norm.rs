//! Whether a vector is of unit length, decided exactly.
//!
//! A finite binary32 number is `significand * 2^exponent`, so the square of
//! the length of a vector is a sum of three integers times powers of two. It
//! is compared with the bounds without rounding: the sum is never formed,
//! the comparison walks down the binary places of its terms.

use vstd::prelude::*;
use vstd::arithmetic::div_mod::{
    lemma_basic_div, lemma_div_by_multiple, lemma_div_denominator, lemma_fundamental_div_mod,
    lemma_mod_bound,
};
use vstd::arithmetic::power2::{
    lemma2_to64, lemma_pow2_adds, lemma_pow2_pos, lemma_pow2_strictly_increases,
    lemma_pow2_unfold, pow2,
};
use crate::scalar::{Scalar, Vec3};

verus! {

/// Binary places of a term's factor: factors are below `2^100`.
pub const FACTOR_BITS: u32 = 100;

/// `2^100`.
pub proof fn lemma_pow2_100()
    ensures
        pow2(100) == 0x10_0000_0000_0000_0000_0000_0000,
{
    lemma2_to64();
    lemma_pow2_adds(64, 32);
    lemma_pow2_adds(96, 4);
}

/// What lies at and above place `q` of `t`, in units of that place.
pub open spec fn above(t: nat, q: nat) -> nat {
    t / pow2(q)
}

/// The binary digit of `t` at place `q`.
pub open spec fn digit(t: nat, q: nat) -> nat {
    above(t, q) % 2
}

/// A shifted number has zeros below the shift, and above it the digits of
/// the number.
pub proof fn lemma_digit_of_shifted(b: nat, s: nat, q: nat)
    ensures
        q < s ==> digit(b * pow2(s), q) == 0,
        q >= s ==> above(b * pow2(s), q) == above(b, (q - s) as nat),
{
    lemma_pow2_pos(q);
    lemma_pow2_pos(s);
    if q < s {
        let k = (s - q) as nat;
        lemma_pow2_adds(k, q);
        lemma_pow2_unfold(k);
        let half = pow2((k - 1) as nat);
        assert(b * pow2(s) == (b * pow2(k)) * pow2(q)) by (nonlinear_arith)
            requires
                pow2(s) == pow2(k) * pow2(q),
        ;
        lemma_div_by_multiple((b * pow2(k)) as int, pow2(q) as int);
        assert(b * pow2(k) == 2 * (b * half)) by (nonlinear_arith)
            requires
                pow2(k) == 2 * half,
        ;
    } else {
        let k = (q - s) as nat;
        lemma_pow2_adds(s, k);
        lemma_pow2_pos(k);
        lemma_div_by_multiple(b as int, pow2(s) as int);
        lemma_div_denominator((b * pow2(s)) as int, pow2(s) as int, pow2(k) as int);
    }
}

/// The binary digit at place `q` of the factor `b` shifted by `s` places.
fn digit_of(b: u128, s: u32, q: u32) -> (r: i64)
    requires
        b < pow2(100),
    ensures
        r == digit(b as nat * pow2(s as nat), q as nat),
        0 <= r <= 1,
{
    proof {
        lemma_digit_of_shifted(b as nat, s as nat, q as nat);
    }
    if q < s {
        return 0;
    }
    let k = q - s;
    if k >= FACTOR_BITS {
        proof {
            if k > 100 {
                lemma_pow2_strictly_increases(100, k as nat);
            }
            lemma_basic_div(b as int, pow2(k as nat) as int);
        }
        return 0;
    }
    let shift = k as u128;
    proof {
        vstd::bits::lemma_u128_shr_is_div(b, shift);
    }
    ((b >> shift) % 2) as i64
}

/// Greatest shift of a term.
pub const TOP_SHIFT: u32 = 298;

/// A place above every digit of every term.
pub const TOP_PLACE: u32 = 400;

/// What lies above place `q` of `t`, counted in units of that place, and what
/// lies below, which is less than one unit.
pub proof fn lemma_floor_bounds(t: nat, q: nat)
    ensures
        pow2(q) * above(t, q) <= t < pow2(q) * above(t, q) + pow2(q),
{
    lemma_pow2_pos(q);
    lemma_fundamental_div_mod(t as int, pow2(q) as int);
    lemma_mod_bound(t as int, pow2(q) as int);
}

/// Going down one place doubles what lies above and adds the digit.
pub proof fn lemma_next_digit(t: nat, q: nat)
    ensures
        above(t, q) == 2 * above(t, q + 1) + digit(t, q),
{
    lemma_pow2_pos(q);
    lemma_pow2_unfold(q + 1);
    lemma_div_denominator(t as int, pow2(q) as int, 2);
    assert(pow2(q) * 2 == pow2(q + 1));
    let y = (t / pow2(q)) as int;
    lemma_fundamental_div_mod(y, 2);
}

/// A factor shifted by no more than the greatest shift has no digit at or
/// above the top place.
pub proof fn lemma_below_top(b: nat, s: nat)
    requires
        b < pow2(100),
        s <= TOP_SHIFT,
    ensures
        above(b * pow2(s), TOP_PLACE as nat) == 0,
{
    lemma_pow2_pos(s);
    lemma_pow2_adds(100, s);
    assert(b * pow2(s) < pow2(100) * pow2(s)) by (nonlinear_arith)
        requires
            b < pow2(100),
            pow2(s) > 0,
    ;
    if 100 + s < 400 {
        lemma_pow2_strictly_increases(100 + s, 400);
    }
    lemma_basic_div((b * pow2(s)) as int, pow2(400) as int);
}

/// The sign of `b0 * 2^s0 + b1 * 2^s1 + b2 * 2^s2 - c * 2^298`: `-1`, `0` or
/// `1`.
fn compare(b0: u128, s0: u32, b1: u128, s1: u32, b2: u128, s2: u32, c: u128) -> (r: i64)
    requires
        b0 < pow2(100),
        b1 < pow2(100),
        b2 < pow2(100),
        c < pow2(100),
        s0 <= TOP_SHIFT,
        s1 <= TOP_SHIFT,
        s2 <= TOP_SHIFT,
    ensures
        ({
            let x = b0 * pow2(s0 as nat) + b1 * pow2(s1 as nat) + b2 * pow2(s2 as nat);
            let y = c * pow2(TOP_SHIFT as nat);
            r == (if x < y {
                -1int
            } else if x == y {
                0int
            } else {
                1int
            })
        }),
{
    let ghost t0 = b0 as nat * pow2(s0 as nat);
    let ghost t1 = b1 as nat * pow2(s1 as nat);
    let ghost t2 = b2 as nat * pow2(s2 as nat);
    let ghost y = c as nat * pow2(TOP_SHIFT as nat);
    let mut p: u32 = TOP_PLACE;
    let mut diff: i64 = 0;
    proof {
        lemma_below_top(b0 as nat, s0 as nat);
        lemma_below_top(b1 as nat, s1 as nat);
        lemma_below_top(b2 as nat, s2 as nat);
        lemma_below_top(c as nat, TOP_SHIFT as nat);
    }
    while p > 0
        invariant
            p <= TOP_PLACE,
            b0 < pow2(100),
            b1 < pow2(100),
            b2 < pow2(100),
            c < pow2(100),
            t0 == b0 as nat * pow2(s0 as nat),
            t1 == b1 as nat * pow2(s1 as nat),
            t2 == b2 as nat * pow2(s2 as nat),
            y == c as nat * pow2(TOP_SHIFT as nat),
            diff == above(t0, p as nat) + above(t1, p as nat) + above(t2, p as nat) - above(
                y,
                p as nat,
            ),
            -2 <= diff <= 0,
        decreases p,
    {
        let ghost g0 = above(t0, p as nat) as int;
        let ghost g1 = above(t1, p as nat) as int;
        let ghost g2 = above(t2, p as nat) as int;
        let ghost gy = above(y, p as nat) as int;
        let q = p - 1;
        let d0 = digit_of(b0, s0, q);
        let d1 = digit_of(b1, s1, q);
        let d2 = digit_of(b2, s2, q);
        let dc = digit_of(c, TOP_SHIFT, q);
        let next = 2 * diff + d0 + d1 + d2 - dc;
        proof {
            lemma_next_digit(t0, q as nat);
            lemma_next_digit(t1, q as nat);
            lemma_next_digit(t2, q as nat);
            lemma_next_digit(y, q as nat);
            lemma_floor_bounds(t0, q as nat);
            lemma_floor_bounds(t1, q as nat);
            lemma_floor_bounds(t2, q as nat);
            lemma_floor_bounds(y, q as nat);
            lemma_pow2_pos(q as nat);
        }
        let ghost unit = pow2(q as nat) as int;
        let ghost f0 = above(t0, q as nat) as int;
        let ghost f1 = above(t1, q as nat) as int;
        let ghost f2 = above(t2, q as nat) as int;
        let ghost fy = above(y, q as nat) as int;
        assert(p as nat == q as nat + 1);
        assert(next == 2 * diff + d0 + d1 + d2 - dc);
        assert(f0 == 2 * g0 + d0);
        assert(f1 == 2 * g1 + d1);
        assert(f2 == 2 * g2 + d2);
        assert(fy == 2 * gy + dc);
        assert(next == f0 + f1 + f2 - fy);
        if next >= 1 {
            proof {
                assert(unit * (f0 + f1 + f2) >= unit * (fy + 1)) by (nonlinear_arith)
                    requires
                        f0 + f1 + f2 >= fy + 1,
                        unit > 0,
                ;
                assert(unit * (f0 + f1 + f2) == unit * f0 + unit * f1 + unit * f2)
                    by (nonlinear_arith);
                assert(unit * (fy + 1) == unit * fy + unit) by (nonlinear_arith);
            }
            return 1;
        }
        if next <= -3 {
            proof {
                assert(unit * (f0 + f1 + f2 + 3) <= unit * fy) by (nonlinear_arith)
                    requires
                        f0 + f1 + f2 + 3 <= fy,
                        unit > 0,
                ;
                assert(unit * (f0 + f1 + f2 + 3) == unit * f0 + unit * f1 + unit * f2 + 3 * unit)
                    by (nonlinear_arith);
            }
            return -1;
        }
        diff = next;
        p = q;
    }
    proof {
        lemma2_to64();
        assert(pow2(0) == 1);
        lemma_floor_bounds(t0, 0);
        lemma_floor_bounds(t1, 0);
        lemma_floor_bounds(t2, 0);
        lemma_floor_bounds(y, 0);
    }
    if diff == 0 {
        0
    } else {
        -1
    }
}

/// The bounds are stated in units of `10^-10`.
pub const SCALE: u128 = 10_000_000_000;

/// `(1 - 10^-5)^2` in units of `10^-10`.
pub const LOWER: u128 = 9_999_800_001;

/// `(1 + 10^-5)^2` in units of `10^-10`.
pub const UPPER: u128 = 10_000_200_001;

/// The square of a finite number in units of `2^-298`, in which the square of
/// every finite number is whole.
pub open spec fn scaled_square(x: Scalar) -> nat {
    x.significand() * x.significand() * pow2((2 * x.exponent() + 298) as nat)
}

/// The square of the length of a finite vector in units of `2^-298`.
pub open spec fn length_squared(v: Vec3) -> nat {
    scaled_square(v.x) + scaled_square(v.y) + scaled_square(v.z)
}

/// Whether the vector is of unit length: its components are finite, and its
/// length `n` satisfies `|n - 1| < 10^-5`, which is `(1 - 10^-5)^2 < n^2 < (1 +
/// 10^-5)^2`.
pub open spec fn is_unit_spec(v: Vec3) -> bool {
    &&& v.is_finite_spec()
    &&& LOWER * pow2(298) < length_squared(v) * SCALE
    &&& length_squared(v) * SCALE < UPPER * pow2(298)
}

/// `2^44`.
proof fn lemma_pow2_44()
    ensures
        pow2(44) == 0x1000_0000_0000,
{
    lemma2_to64();
    lemma_pow2_adds(32, 12);
}

/// The square of a finite number, in units of `10^-10 * 2^-298`, as a factor
/// and a shift; `None` for a number whose square alone exceeds the upper
/// bound.
fn term(x: &Scalar) -> (r: Option<(u128, u32)>)
    requires
        x.is_finite_spec(),
    ensures
        match r {
            Some((b, s)) => b < pow2(100) && s <= TOP_SHIFT && b * pow2(s as nat) == scaled_square(
                *x,
            ) * SCALE,
            None => scaled_square(*x) * SCALE >= UPPER * pow2(298),
        },
{
    let (a, e) = x.decompose();
    let ghost n = (2 * e + 298) as nat;
    if a == 0 {
        proof {
            lemma_pow2_pos(100);
            let sg = x.significand();
            assert(0 * pow2(0) == 0) by (nonlinear_arith);
            assert(sg * sg * pow2(n) * SCALE == 0) by (nonlinear_arith)
                requires
                    sg == 0,
            ;
        }
        return Some((0, 0));
    }
    if e > -23 {
        proof {
            lemma_pow2_44();
            lemma_pow2_pos(254);
            lemma_pow2_adds(254, 44);
            if n > 254 {
                lemma_pow2_strictly_increases(254, n);
            }
            let w = pow2(n) as int;
            let w0 = pow2(254) as int;
            let high = pow2(298) as int;
            let sq = (a * a) as int;
            assert(sq >= 0x4000_0000_0000) by (nonlinear_arith)
                requires
                    sq == a * a,
                    a >= 0x80_0000,
            ;
            assert(sq * w * SCALE >= UPPER * high) by (nonlinear_arith)
                requires
                    sq >= 0x4000_0000_0000,
                    w >= w0,
                    w0 > 0,
                    high == w0 * 0x1000_0000_0000,
                    SCALE == 10_000_000_000,
                    UPPER == 10_000_200_001,
            ;
        }
        return None;
    }
    let s: u32 = (2 * e + 298) as u32;
    assert(a as u128 * a as u128 <= 0xFF_FFFFu128 * 0xFF_FFFFu128) by (nonlinear_arith)
        requires
            a <= 0xFF_FFFF,
    ;
    let b: u128 = (a as u128 * a as u128) * SCALE;
    proof {
        lemma_pow2_100();
        assert(b * pow2(s as nat) == a * a * pow2(n) * SCALE) by (nonlinear_arith)
            requires
                b == (a * a) * SCALE,
                s as nat == n,
        ;
    }
    Some((b, s))
}

/// Whether the vector is of unit length, to within `10^-5`.
pub fn is_unit(v: &Vec3) -> (r: bool)
    ensures
        r == is_unit_spec(*v),
{
    if !v.is_finite() {
        return false;
    }
    let ghost total = length_squared(*v) * SCALE;
    proof {
        assert(total == scaled_square(v.x) * SCALE + scaled_square(v.y) * SCALE + scaled_square(
            v.z,
        ) * SCALE) by (nonlinear_arith)
            requires
                total == (scaled_square(v.x) + scaled_square(v.y) + scaled_square(v.z)) * SCALE,
        ;
        lemma_pow2_100();
    }
    let (b0, s0) = match term(&v.x) {
        Some(t) => t,
        None => {
            return false;
        },
    };
    let (b1, s1) = match term(&v.y) {
        Some(t) => t,
        None => {
            return false;
        },
    };
    let (b2, s2) = match term(&v.z) {
        Some(t) => t,
        None => {
            return false;
        },
    };
    let low = compare(b0, s0, b1, s1, b2, s2, LOWER);
    let high = compare(b0, s0, b1, s1, b2, s2, UPPER);
    low == 1 && high == -1
}

} // verus!
