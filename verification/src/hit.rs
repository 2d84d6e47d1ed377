//! Hits of a ray: which ray parameters count as a hit, and which of several
//! hits is the closest.

use vstd::prelude::*;
use crate::scalar::{Scalar, Vec2, Vec3, SIGN_BIT};

verus! {

/// Bit pattern of the tolerance of every intersection test, `1e-4`.
pub const EPS_BITS: u32 = 0x38D1_B717;

/// The tolerance of every intersection test.
pub open spec fn eps() -> Scalar {
    Scalar { bits: EPS_BITS }
}

/// A hit of a ray at parameter `l`. A test may add what it found on the way;
/// the test of a mesh triangle adds the barycentric coordinates of the hit,
/// from which shading blends the data of the three vertices.
#[derive(Clone, Copy, Debug, PartialEq, Eq, Structural)]
pub struct HitResult {
    pub l: Scalar,
    pub intermed: Option<Vec2>,
}

impl HitResult {
    /// A hit lies in front of the ray's origin by more than the tolerance.
    pub open spec fn wf(self) -> bool {
        eps().lt_spec(self.l)
    }

    /// The hit at parameter `l`, if `l` is a number greater than the
    /// tolerance.
    pub fn accept(l: Scalar, intermed: Option<Vec2>) -> (r: Option<HitResult>)
        ensures
            match r {
                Some(hit) => hit.wf() && hit.l == l && hit.intermed == intermed,
                None => !eps().lt_spec(l),
            },
    {
        let tolerance = Scalar { bits: EPS_BITS };
        if tolerance.lt(&l) {
            Some(HitResult { l, intermed })
        } else {
            None
        }
    }
}

/// Bit pattern of the greatest finite number, the ray parameter of the sky.
pub const SKY_BITS: u32 = 0x7F7F_FFFF;

/// The hit of a ray on the sky box: every ray hits it, behind everything
/// else that it may hit.
pub fn sky_hit() -> (r: HitResult)
    ensures
        r.wf(),
        r == (HitResult { l: Scalar { bits: SKY_BITS }, intermed: None }),
        forall|other: HitResult| other.wf() && other.l.is_finite_spec() ==> other.l.le_spec(r.l),
{
    HitResult { l: Scalar { bits: SKY_BITS }, intermed: None }
}

/// The root of the ray-sphere equation that is the hit: the nearer root where
/// it is greater than the tolerance, else the farther one where that is.
pub open spec fn sphere_root(near: Scalar, far: Scalar) -> Option<Scalar> {
    if eps().lt_spec(near) {
        Some(near)
    } else if eps().lt_spec(far) {
        Some(far)
    } else {
        None
    }
}

/// Decides the ray-sphere test from the two roots of its quadratic equation.
pub fn sphere_hit(near: Scalar, far: Scalar) -> (r: Option<HitResult>)
    ensures
        match r {
            Some(hit) => hit.wf() && sphere_root(near, far) == Some(hit.l) && hit.intermed.is_none(),
            None => sphere_root(near, far).is_none(),
        },
{
    match HitResult::accept(near, None) {
        Some(hit) => Some(hit),
        None => HitResult::accept(far, None),
    }
}

/// A face of the sky box.
#[derive(Clone, Copy, Debug, PartialEq, Eq, Structural)]
pub enum CubeFace {
    NegX,
    PosX,
    NegY,
    PosY,
    NegZ,
    PosZ,
}

/// The face that a direction looks at: the axis along which the direction is
/// longest, towards the side of its sign. Of equally long axes x goes before
/// y, and y before z. A NaN component counts as longer than any number.
pub open spec fn cube_face_spec(d: Vec3) -> CubeFace {
    let x = d.x.magnitude();
    let y = d.y.magnitude();
    let z = d.z.magnitude();
    if x >= y && x >= z {
        if d.x.sign_negative() {
            CubeFace::NegX
        } else {
            CubeFace::PosX
        }
    } else if y >= z {
        if d.y.sign_negative() {
            CubeFace::NegY
        } else {
            CubeFace::PosY
        }
    } else {
        if d.z.sign_negative() {
            CubeFace::NegZ
        } else {
            CubeFace::PosZ
        }
    }
}

/// The face of the sky box that a direction looks at.
pub fn cube_face(d: Vec3) -> (r: CubeFace)
    ensures
        r == cube_face_spec(d),
{
    let x = d.x.bits % SIGN_BIT;
    let y = d.y.bits % SIGN_BIT;
    let z = d.z.bits % SIGN_BIT;
    if x >= y && x >= z {
        if d.x.is_sign_negative() {
            CubeFace::NegX
        } else {
            CubeFace::PosX
        }
    } else if y >= z {
        if d.y.is_sign_negative() {
            CubeFace::NegY
        } else {
            CubeFace::PosY
        }
    } else {
        if d.z.is_sign_negative() {
            CubeFace::NegZ
        } else {
            CubeFace::PosZ
        }
    }
}

/// The face depends on the signs of the components and on the order of
/// their lengths alone: two directions that agree in both look at the same
/// face. Scaling a direction by a positive factor changes neither.
pub proof fn lemma_cube_face_by_order(d: Vec3, e: Vec3)
    requires
        d.x.sign_negative() == e.x.sign_negative(),
        d.y.sign_negative() == e.y.sign_negative(),
        d.z.sign_negative() == e.z.sign_negative(),
        d.x.magnitude() >= d.y.magnitude() <==> e.x.magnitude() >= e.y.magnitude(),
        d.x.magnitude() >= d.z.magnitude() <==> e.x.magnitude() >= e.z.magnitude(),
        d.y.magnitude() >= d.z.magnitude() <==> e.y.magnitude() >= e.z.magnitude(),
    ensures
        cube_face_spec(d) == cube_face_spec(e),
{
}

/// Whether `b` is `a` times `p / q`: the sign is kept, and the absolute value
/// is multiplied.
pub open spec fn is_stretched(a: Scalar, b: Scalar, p: nat, q: nat) -> bool {
    a.sign_negative() == b.sign_negative() && q * b.scaled_value() == p * a.scaled_value()
}

/// The order of the absolute values of two numbers is the order of what
/// they are stretched to.
proof fn lemma_stretching_keeps_order(a: Scalar, b: Scalar, c: Scalar, d: Scalar, p: nat, q: nat)
    requires
        p > 0,
        q > 0,
        a.is_finite_spec() && b.is_finite_spec() && c.is_finite_spec() && d.is_finite_spec(),
        is_stretched(a, c, p, q),
        is_stretched(b, d, p, q),
    ensures
        a.magnitude() >= b.magnitude() <==> c.magnitude() >= d.magnitude(),
{
    crate::scalar::lemma_magnitude_orders_values(a, b);
    crate::scalar::lemma_magnitude_orders_values(b, a);
    crate::scalar::lemma_magnitude_orders_values(c, d);
    crate::scalar::lemma_magnitude_orders_values(d, c);
    let va = a.scaled_value() as int;
    let vb = b.scaled_value() as int;
    let vc = c.scaled_value() as int;
    let vd = d.scaled_value() as int;
    assert(va < vb <==> vc < vd) by (nonlinear_arith)
        requires
            p > 0,
            q > 0,
            q * vc == p * va,
            q * vd == p * vb,
    ;
}

/// A direction and the direction stretched by a positive factor look at the
/// same face of the sky box.
pub proof fn lemma_cube_face_under_scaling(d: Vec3, e: Vec3, p: nat, q: nat)
    requires
        p > 0,
        q > 0,
        d.is_finite_spec(),
        e.is_finite_spec(),
        is_stretched(d.x, e.x, p, q),
        is_stretched(d.y, e.y, p, q),
        is_stretched(d.z, e.z, p, q),
    ensures
        cube_face_spec(d) == cube_face_spec(e),
{
    lemma_stretching_keeps_order(d.x, d.y, e.x, e.y, p, q);
    lemma_stretching_keeps_order(d.x, d.z, e.x, e.z, p, q);
    lemma_stretching_keeps_order(d.y, d.z, e.y, e.z, p, q);
    lemma_cube_face_by_order(d, e);
}

/// The absolute value.
pub open spec fn abs_spec(x: Scalar) -> Scalar {
    Scalar { bits: (x.bits % SIGN_BIT) as u32 }
}

/// Whether the solution of the ray-triangle system is a hit: the system is
/// not degenerate (`|det|` is not below the tolerance), the barycentric
/// coordinates lie in the triangle (`u` in `[0, 1]`, `v` not below zero, `u +
/// v` not above one), and the ray parameter is greater than the tolerance. A
/// NaN among `det`, `u`, `v`, `u + v` fails no test of its own.
pub open spec fn triangle_hit_spec(
    det: Scalar,
    u: Scalar,
    v: Scalar,
    u_plus_v: Scalar,
    l: Scalar,
) -> bool {
    let zero = Scalar { bits: 0 };
    let one = Scalar { bits: 0x3F80_0000 };
    &&& !abs_spec(det).lt_spec(eps())
    &&& !u.lt_spec(zero)
    &&& !one.lt_spec(u)
    &&& !v.lt_spec(zero)
    &&& !one.lt_spec(u_plus_v)
    &&& eps().lt_spec(l)
}

/// Decides the ray-triangle test from the solution of its linear system: the
/// determinant, the barycentric coordinates `u` and `v`, their sum, and the
/// ray parameter `l`. The hit carries the ray parameter alone.
pub fn triangle_hit(det: Scalar, u: Scalar, v: Scalar, u_plus_v: Scalar, l: Scalar) -> (r: Option<
    HitResult,
>)
    ensures
        match r {
            Some(hit) => {
                &&& triangle_hit_spec(det, u, v, u_plus_v, l)
                &&& hit.wf()
                &&& hit.l == l
                &&& hit.intermed.is_none()
            },
            None => !triangle_hit_spec(det, u, v, u_plus_v, l),
        },
{
    let zero = Scalar { bits: 0 };
    let one = Scalar { bits: 0x3F80_0000 };
    let tolerance = Scalar { bits: EPS_BITS };
    let size = Scalar { bits: det.bits % SIGN_BIT };
    if size.lt(&tolerance) {
        return None;
    }
    if u.lt(&zero) || one.lt(&u) {
        return None;
    }
    if v.lt(&zero) || one.lt(&u_plus_v) {
        return None;
    }
    HitResult::accept(l, None)
}

/// Decides the test of a ray against a triangle of a mesh: the same test as
/// [`triangle_hit`], with a hit that carries the barycentric coordinates `u`
/// and `v` for shading.
pub fn mesh_triangle_hit(det: Scalar, u: Scalar, v: Scalar, u_plus_v: Scalar, l: Scalar) -> (r:
    Option<HitResult>)
    ensures
        match r {
            Some(hit) => {
                &&& triangle_hit_spec(det, u, v, u_plus_v, l)
                &&& hit.wf()
                &&& hit.l == l
                &&& hit.intermed == Some(Vec2 { x: u, y: v })
            },
            None => !triangle_hit_spec(det, u, v, u_plus_v, l),
        },
{
    match triangle_hit(det, u, v, u_plus_v, l) {
        Some(hit) => Some(HitResult { l: hit.l, intermed: Some(Vec2 { x: u, y: v }) }),
        None => None,
    }
}

/// Whether `at` is the closest of the hits: the least ray parameter, and of
/// equal ones the first.
pub open spec fn is_closest(hits: Seq<Option<HitResult>>, at: int) -> bool {
    &&& 0 <= at < hits.len()
    &&& hits[at].is_some()
    &&& forall|j: int|
        0 <= j < hits.len() && (#[trigger] hits[j]).is_some() ==> hits[at].unwrap().l.le_spec(
            hits[j].unwrap().l,
        )
    &&& forall|j: int|
        0 <= j < at && (#[trigger] hits[j]).is_some() ==> hits[at].unwrap().l.lt_spec(
            hits[j].unwrap().l,
        )
}

/// Whether no hit of the list is closer than the hit at `at`.
pub open spec fn is_nearest(hits: Seq<Option<HitResult>>, at: int) -> bool {
    &&& 0 <= at < hits.len()
    &&& hits[at].is_some()
    &&& forall|j: int|
        0 <= j < hits.len() && (#[trigger] hits[j]).is_some() ==> hits[at].unwrap().l.le_spec(
            hits[j].unwrap().l,
        )
}

/// Primitives may be skipped if they cannot be closer. Let `tested` be the
/// hits of a ray with some primitives left untested, and let the closest
/// tested hit be at `at`. If no hit of a skipped primitive is closer than that
/// one, it is a closest hit among all primitives. A spatial index may
/// therefore skip whatever lies behind the best hit found so far.
pub proof fn lemma_skipping_is_sound(
    all: Seq<Option<HitResult>>,
    tested: Seq<Option<HitResult>>,
    at: int,
)
    requires
        all.len() == tested.len(),
        forall|j: int|
            0 <= j < all.len() ==> (#[trigger] tested[j]).is_none() || tested[j] == all[j],
        is_closest(tested, at),
        forall|j: int|
            0 <= j < all.len() && tested[j].is_none() && (#[trigger] all[j]).is_some()
                ==> tested[at].unwrap().l.le_spec(all[j].unwrap().l),
    ensures
        is_nearest(all, at),
{
    assert(tested[at] == all[at]);
    assert forall|j: int| 0 <= j < all.len() && (#[trigger] all[j]).is_some() implies all[at].unwrap().l.le_spec(
        all[j].unwrap().l,
    ) by {
        if tested[j].is_some() {
            assert(tested[j] == all[j]);
        }
    }
}

/// Position of the closest hit among the results of testing one ray against
/// a list of primitives, or `None` where the ray hits nothing.
pub fn closest_hit(hits: &Vec<Option<HitResult>>) -> (r: Option<usize>)
    requires
        forall|j: int|
            0 <= j < hits@.len() && (#[trigger] hits@[j]).is_some() ==> hits@[j].unwrap().wf(),
    ensures
        match r {
            Some(at) => is_closest(hits@, at as int),
            None => forall|j: int| 0 <= j < hits@.len() ==> (#[trigger] hits@[j]).is_none(),
        },
{
    let n = hits.len();
    let mut best: Option<usize> = None;
    let mut j: usize = 0;
    while j < n
        invariant
            n == hits@.len(),
            0 <= j <= n,
            forall|k: int|
                0 <= k < hits@.len() && (#[trigger] hits@[k]).is_some() ==> hits@[k].unwrap().wf(),
            match best {
                Some(at) => is_closest(hits@.subrange(0, j as int), at as int),
                None => forall|k: int| 0 <= k < j ==> (#[trigger] hits@[k]).is_none(),
            },
        decreases n - j,
    {
        let ghost seen = hits@.subrange(0, j as int);
        let ghost grown = hits@.subrange(0, j + 1);
        match hits[j] {
            None => {
                proof {
                    if let Some(at) = best {
                        assert forall|k: int|
                            0 <= k < grown.len() && (#[trigger] grown[k]).is_some() implies grown[at as int].unwrap().l.le_spec(
                            grown[k].unwrap().l,
                        ) by {
                            assert(grown[k] == seen[k]);
                        }
                        assert forall|k: int|
                            0 <= k < at && (#[trigger] grown[k]).is_some() implies grown[at as int].unwrap().l.lt_spec(
                            grown[k].unwrap().l,
                        ) by {
                            assert(grown[k] == seen[k]);
                        }
                        assert(grown[at as int] == seen[at as int]);
                    }
                }
            },
            Some(hit) => {
                let closer = match best {
                    None => true,
                    Some(at) => match hits[at] {
                        Some(held) => hit.l.lt(&held.l),
                        None => true,
                    },
                };
                proof {
                    assert(hits@[j as int].unwrap().wf());
                    if let Some(at) = best {
                        assert(seen[at as int] == hits@[at as int]);
                        assert(hits@[at as int].unwrap().wf());
                    }
                    if closer {
                        assert forall|k: int|
                            0 <= k < grown.len() && (#[trigger] grown[k]).is_some() implies hit.l.le_spec(
                            grown[k].unwrap().l,
                        ) by {
                            if k < j {
                                assert(grown[k] == seen[k]);
                                assert(hits@[k].unwrap().wf());
                            }
                        }
                        assert forall|k: int|
                            0 <= k < j && (#[trigger] grown[k]).is_some() implies hit.l.lt_spec(
                            grown[k].unwrap().l,
                        ) by {
                            assert(grown[k] == seen[k]);
                            assert(hits@[k].unwrap().wf());
                        }
                    } else {
                        let at = best.unwrap();
                        assert forall|k: int|
                            0 <= k < grown.len() && (#[trigger] grown[k]).is_some() implies grown[at as int].unwrap().l.le_spec(
                            grown[k].unwrap().l,
                        ) by {
                            if k < j {
                                assert(grown[k] == seen[k]);
                            }
                        }
                        assert forall|k: int|
                            0 <= k < at && (#[trigger] grown[k]).is_some() implies grown[at as int].unwrap().l.lt_spec(
                            grown[k].unwrap().l,
                        ) by {
                            assert(grown[k] == seen[k]);
                        }
                    }
                }
                if closer {
                    best = Some(j);
                }
            },
        }
        j += 1;
    }
    assert(hits@.subrange(0, n as int) == hits@);
    best
}

} // verus!
