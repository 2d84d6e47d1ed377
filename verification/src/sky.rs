//! Which texel of the sky box a direction looks at, decided exactly.
//!
//! The face is the one along the longest component of the direction. On the
//! face, the two other components, divided by the longest, run from -1 to 1;
//! that range is laid over the texels of the face. The quotient is never
//! rounded: the texel is the floor of a fraction of whole numbers.

use vstd::prelude::*;
use vstd::arithmetic::div_mod::{
    lemma_fundamental_div_mod, lemma_fundamental_div_mod_converse, lemma_mod_bound,
};
use vstd::arithmetic::power2::{
    lemma2_to64, lemma_pow2_adds, lemma_pow2_pos, lemma_pow2_strictly_increases, pow2,
};
use crate::hit::{cube_face, cube_face_spec, is_stretched, lemma_cube_face_under_scaling, CubeFace};
use crate::scalar::{lemma_magnitude_orders_values, Scalar, Vec3, SIGN_BIT};

verus! {

/// Equal fractions have equal floors.
pub proof fn lemma_equal_fractions(n: int, d: int, m: int, e: int)
    requires
        d > 0,
        e > 0,
        n * e == m * d,
    ensures
        n / d == m / e,
{
    let k = n / d;
    let r = n % d;
    lemma_fundamental_div_mod(n, d);
    lemma_mod_bound(n, d);
    // m = k * e + r', with r' * d == r * e
    let rest = m - k * e;
    assert(rest * d == r * e) by (nonlinear_arith)
        requires
            n == d * k + r,
            n * e == m * d,
            rest == m - k * e,
    ;
    assert(0 <= rest < e) by (nonlinear_arith)
        requires
            rest * d == r * e,
            0 <= r < d,
            d > 0,
            e > 0,
    ;
    lemma_fundamental_div_mod_converse(m, e, k, rest);
}

/// The value of a finite number in units of `2^-149`, its sign turned where
/// `flip` says so.
pub open spec fn signed_value(a: Scalar, flip: bool) -> int {
    if a.sign_negative() != flip {
        -(a.scaled_value() as int)
    } else {
        a.scaled_value() as int
    }
}

/// The texel, out of `w` in a row, at which `a / m` lies when the range from
/// -1 to 1 is laid over the row: `floor(w * (a / m + 1) / 2)`, and the last
/// texel for the end of the range. Here `m` is the length of the longest
/// component and `a` another component, its sign turned by `flip`.
pub open spec fn index_spec(a: Scalar, flip: bool, m: Scalar, w: nat) -> nat {
    let length = m.scaled_value() as int;
    let i = (w as int * (signed_value(a, flip) + length)) / (2 * length);
    if i >= w {
        (w - 1) as nat
    } else {
        i as nat
    }
}

/// The texel at which `a / m` lies (see [`index_spec`]).
pub fn axis_index(a: Scalar, flip: bool, m: Scalar, w: u32) -> (r: u32)
    requires
        a.is_finite_spec(),
        m.is_finite_spec(),
        a.magnitude() <= m.magnitude(),
        m.magnitude() > 0,
        w >= 1,
    ensures
        r == index_spec(a, flip, m, w as nat),
        r < w,
{
    let (sa, ea) = a.decompose();
    let (sm, em) = m.decompose();
    let neg = a.is_sign_negative() != flip;
    let ghost unit = pow2((ea + 149) as nat) as int;
    let ghost k = (em - ea) as nat;
    let ghost step = pow2(k) as int;
    let ghost va = a.scaled_value() as int;
    let ghost vm = m.scaled_value() as int;
    let ghost big = sm as int * step;
    let ghost signed = if neg { -(sa as int) } else { sa as int };
    proof {
        lemma2_to64();
        lemma_pow2_pos((ea + 149) as nat);
        lemma_pow2_pos(k);
        lemma_pow2_adds(k, (ea + 149) as nat);
        lemma_magnitude_orders_values(a, m);
        lemma_magnitude_orders_values(m, a);
        lemma_magnitude_orders_values(Scalar { bits: 0 }, m);
        assert((Scalar { bits: 0 }).scaled_value() == 0) by (nonlinear_arith)
            requires
                (Scalar { bits: 0 }).significand() == 0,
                (Scalar { bits: 0 }).scaled_value() == (Scalar { bits: 0 }).significand() * pow2(
                    ((Scalar { bits: 0 }).exponent() + 149) as nat,
                ),
        ;
        assert(va == sa * unit);
        assert(vm == big * unit) by (nonlinear_arith)
            requires
                vm == sm * pow2((em + 149) as nat),
                pow2((em + 149) as nat) == step * unit,
                big == sm * step,
        ;
        assert(sa <= big) by (nonlinear_arith)
            requires
                va <= vm,
                va == sa * unit,
                vm == big * unit,
                unit > 0,
        ;
        assert(big > 0) by (nonlinear_arith)
            requires
                vm > 0,
                vm == big * unit,
                unit > 0,
        ;
        assert(signed_value(a, flip) == signed * unit) by (nonlinear_arith)
            requires
                va == sa * unit,
                signed_value(a, flip) == (if neg {
                    -va
                } else {
                    va
                }),
                signed == (if neg {
                    -(sa as int)
                } else {
                    sa as int
                }),
        ;
        // the fraction of the spec, with the common unit taken out
        let n = w as int * (signed_value(a, flip) + vm);
        let d = 2 * vm;
        let n0 = w as int * (signed + big);
        let d0 = 2 * big;
        assert(n * d0 == n0 * d) by (nonlinear_arith)
            requires
                n == w * (signed_value(a, flip) + vm),
                d == 2 * vm,
                n0 == w * (signed + big),
                d0 == 2 * big,
                signed_value(a, flip) == signed * unit,
                vm == big * unit,
        ;
        lemma_equal_fractions(n, d, n0, d0);
    }
    let half = w / 2;
    if em - ea > 36 {
        proof {
            if k > 37 {
                lemma_pow2_strictly_increases(37, k);
            }
            lemma_pow2_adds(32, 5);
            assert(sm >= 0x80_0000);
            assert(big >= 0x80_0000 * 0x20_0000_0000) by (nonlinear_arith)
                requires
                    big == sm * step,
                    sm >= 0x80_0000,
                    step >= 0x20_0000_0000,
            ;
            let lean = w as int * signed;
            assert(-0x100_0000_0000_0000 < lean < 0x100_0000_0000_0000) by (nonlinear_arith)
                requires
                    lean == w * signed,
                    -0x100_0000 < signed < 0x100_0000,
                    0 < w <= 0xFFFF_FFFF,
            ;
            let n0 = w as int * (signed + big);
            let d0 = 2 * big;
            assert(n0 == w * big + lean) by (nonlinear_arith)
                requires
                    n0 == w * (signed + big),
                    lean == w * signed,
            ;
            if w % 2 == 1 {
                assert(n0 == half * d0 + (big + lean)) by (nonlinear_arith)
                    requires
                        n0 == w * big + lean,
                        w == 2 * half + 1,
                        d0 == 2 * big,
                ;
                lemma_fundamental_div_mod_converse(n0, d0, half as int, big + lean);
            } else if neg && sa > 0 {
                assert(lean < 0) by (nonlinear_arith)
                    requires
                        lean == w * signed,
                        signed < 0,
                        w > 0,
                ;
                assert(n0 == (half - 1) * d0 + (d0 + lean)) by (nonlinear_arith)
                    requires
                        n0 == w * big + lean,
                        w == 2 * half,
                        d0 == 2 * big,
                ;
                lemma_fundamental_div_mod_converse(n0, d0, half - 1, d0 + lean);
            } else {
                assert(lean >= 0) by (nonlinear_arith)
                    requires
                        lean == w * signed,
                        signed >= 0,
                        w > 0,
                ;
                assert(n0 == half * d0 + lean) by (nonlinear_arith)
                    requires
                        n0 == w * big + lean,
                        w == 2 * half,
                        d0 == 2 * big,
                ;
                lemma_fundamental_div_mod_converse(n0, d0, half as int, lean);
            }
        }
        return if w % 2 == 1 {
            half
        } else if neg && sa > 0 {
            half - 1
        } else {
            half
        };
    }
    let shift = (em - ea) as u64;
    proof {
        if k < 36 {
            lemma_pow2_strictly_increases(k, 36);
        }
        lemma_pow2_adds(32, 4);
        assert(sm * step <= 0xFF_FFFF * 0x10_0000_0000) by (nonlinear_arith)
            requires
                0 <= sm <= 0xFF_FFFF,
                0 < step <= 0x10_0000_0000,
        ;
        vstd::bits::lemma_u64_shl_is_mul(sm as u64, shift);
    }
    let wide: u128 = ((sm as u64) << shift) as u128;
    let sum: u128 = if neg {
        wide - sa as u128
    } else {
        wide + sa as u128
    };
    assert(w as u128 * sum <= 0xFFFF_FFFFu128 * 0x2000_0000_0000_0000u128) by (nonlinear_arith)
        requires
            w <= 0xFFFF_FFFF,
            sum <= 0x2000_0000_0000_0000,
    ;
    let i: u128 = (w as u128 * sum) / (2 * wide);
    if i >= w as u128 {
        w - 1
    } else {
        i as u32
    }
}

/// Stretching both components by the same positive factor leaves the texel
/// where it is.
pub proof fn lemma_index_under_scaling(
    a: Scalar,
    a2: Scalar,
    flip: bool,
    m: Scalar,
    m2: Scalar,
    p: nat,
    q: nat,
    w: nat,
)
    requires
        p > 0,
        q > 0,
        is_stretched(a, a2, p, q),
        is_stretched(m, m2, p, q),
        m.scaled_value() > 0,
    ensures
        index_spec(a2, flip, m2, w) == index_spec(a, flip, m, w),
{
    let s1 = signed_value(a, flip);
    let s2 = signed_value(a2, flip);
    let v1 = m.scaled_value() as int;
    let v2 = m2.scaled_value() as int;
    let va = a.scaled_value() as int;
    let vb = a2.scaled_value() as int;
    assert(q * s2 == p * s1) by (nonlinear_arith)
        requires
            q * vb == p * va,
            (s1 == va && s2 == vb) || (s1 == -va && s2 == -vb),
    ;
    assert(v2 > 0) by (nonlinear_arith)
        requires
            q * v2 == p * v1,
            v1 > 0,
            p > 0,
            q > 0,
            v2 >= 0,
    ;
    let n1 = w as int * (s1 + v1);
    let d1 = 2 * v1;
    let n2 = w as int * (s2 + v2);
    let d2 = 2 * v2;
    assert(q * (n2 * d1) == q * (n1 * d2)) by (nonlinear_arith)
        requires
            n1 == w * (s1 + v1),
            d1 == 2 * v1,
            n2 == w * (s2 + v2),
            d2 == 2 * v2,
            q * s2 == p * s1,
            q * v2 == p * v1,
    ;
    assert(n2 * d1 == n1 * d2) by (nonlinear_arith)
        requires
            q * (n2 * d1) == q * (n1 * d2),
            q > 0,
    ;
    lemma_equal_fractions(n2, d2, n1, d1);
}

/// A texel of the sky box.
#[derive(Clone, Copy, Debug, PartialEq, Eq, Structural)]
pub struct SkyTexel {
    pub face: CubeFace,
    pub column: u32,
    pub row: u32,
}

/// How a face is laid out: the component along which the face lies, then the
/// component that runs along its rows and the one that runs along its
/// columns, each with whether it runs backwards.
pub open spec fn face_axes(d: Vec3, face: CubeFace) -> (Scalar, Scalar, bool, Scalar, bool) {
    match face {
        CubeFace::PosX => (d.x, d.z, true, d.y, true),
        CubeFace::NegX => (d.x, d.z, false, d.y, true),
        CubeFace::PosY => (d.y, d.x, false, d.z, false),
        CubeFace::NegY => (d.y, d.x, false, d.z, true),
        CubeFace::PosZ => (d.z, d.x, false, d.y, true),
        CubeFace::NegZ => (d.z, d.x, true, d.y, true),
    }
}

/// Whether the direction is one: its components are finite and not all zero.
pub open spec fn is_direction(d: Vec3) -> bool {
    d.is_finite_spec() && (d.x.magnitude() > 0 || d.y.magnitude() > 0 || d.z.magnitude() > 0)
}

/// The texel that the direction looks at, on faces of `w` by `h` texels.
pub open spec fn sky_texel_spec(d: Vec3, w: nat, h: nat) -> SkyTexel {
    let face = cube_face_spec(d);
    let axes = face_axes(d, face);
    SkyTexel {
        face,
        column: index_spec(axes.1, axes.2, axes.0, w) as u32,
        row: index_spec(axes.3, axes.4, axes.0, h) as u32,
    }
}

fn is_zero(c: &Scalar) -> (b: bool)
    ensures
        b == (c.magnitude() == 0),
{
    c.to_bits() % SIGN_BIT == 0
}

/// The texel of the sky box that a direction looks at, on faces of `w` by
/// `h` texels; `None` for what is no direction and for faces without texels.
pub fn sky_texel(d: Vec3, w: u32, h: u32) -> (r: Option<SkyTexel>)
    ensures
        r.is_some() <==> (is_direction(d) && w >= 1 && h >= 1),
        r matches Some(t) ==> t == sky_texel_spec(d, w as nat, h as nat) && t.column < w && t.row
            < h,
{
    if !d.is_finite() || w == 0 || h == 0 {
        return None;
    }
    if is_zero(&d.x) && is_zero(&d.y) && is_zero(&d.z) {
        return None;
    }
    let face = cube_face(d);
    let (m, a, flip_a, b, flip_b) = match face {
        CubeFace::PosX => (d.x, d.z, true, d.y, true),
        CubeFace::NegX => (d.x, d.z, false, d.y, true),
        CubeFace::PosY => (d.y, d.x, false, d.z, false),
        CubeFace::NegY => (d.y, d.x, false, d.z, true),
        CubeFace::PosZ => (d.z, d.x, false, d.y, true),
        CubeFace::NegZ => (d.z, d.x, true, d.y, true),
    };
    let column = axis_index(a, flip_a, m, w);
    let row = axis_index(b, flip_b, m, h);
    Some(SkyTexel { face, column, row })
}

/// A direction and the direction stretched by a positive factor look at the
/// same texel of the sky box.
pub proof fn lemma_sky_texel_under_scaling(d: Vec3, e: Vec3, p: nat, q: nat, w: nat, h: nat)
    requires
        p > 0,
        q > 0,
        is_direction(d),
        e.is_finite_spec(),
        is_stretched(d.x, e.x, p, q),
        is_stretched(d.y, e.y, p, q),
        is_stretched(d.z, e.z, p, q),
    ensures
        sky_texel_spec(e, w, h) == sky_texel_spec(d, w, h),
{
    lemma_cube_face_under_scaling(d, e, p, q);
    let face = cube_face_spec(d);
    let axes = face_axes(d, face);
    let axes2 = face_axes(e, face);
    let zero = Scalar { bits: 0 };
    lemma_magnitude_orders_values(zero, axes.0);
    assert(zero.scaled_value() == 0) by (nonlinear_arith)
        requires
            zero.significand() == 0,
            zero.scaled_value() == zero.significand() * pow2((zero.exponent() + 149) as nat),
    ;
    lemma_index_under_scaling(axes.1, axes2.1, axes.2, axes.0, axes2.0, p, q, w);
    lemma_index_under_scaling(axes.3, axes2.3, axes.4, axes.0, axes2.0, p, q, h);
}

} // verus!
