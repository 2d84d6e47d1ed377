//! A k-d tree over the bounded primitives of a frame.
//!
//! The tree is an arena of nodes. A leaf owns a range of a list of primitive
//! numbers; an inner node names its two children, which stand before it in
//! the arena, so that the last node is the root. Primitives without a
//! bounding box are kept beside the tree and tested for every ray.
//!
//! The tree itself never computes with coordinates. Whether a ray enters the
//! box of a node, and whether it hits a primitive, is asked of the caller.

use vstd::prelude::*;
use crate::hit::{is_nearest, HitResult};
use crate::scalar::{Scalar, Vec3};

verus! {

/// A node of the tree.
#[derive(Clone, Copy, Debug, PartialEq, Eq, Structural)]
pub enum KdNode {
    /// The primitives `order[first .. first + count]`.
    Leaf { first: usize, count: usize },
    /// Two children, by their places in the arena. What starts at or before
    /// `plane` along `axis` lies under `left`, what ends behind it under
    /// `right`; `plane` is a position as [`Scalar::order_key`] gives it.
    Split { axis: Axis, plane: i64, left: usize, right: usize },
}

/// An axis-aligned box.
#[derive(Clone, Copy, Debug, PartialEq, Eq, Structural)]
pub struct Aabb {
    pub lo: Vec3,
    pub hi: Vec3,
}

/// An axis of space.
#[derive(Clone, Copy, Debug, PartialEq, Eq, Structural)]
pub enum Axis {
    X,
    Y,
    Z,
}

impl Axis {
    /// The component of `v` along the axis.
    pub open spec fn of_spec(self, v: Vec3) -> Scalar {
        match self {
            Axis::X => v.x,
            Axis::Y => v.y,
            Axis::Z => v.z,
        }
    }

    /// The component of `v` along the axis.
    pub fn of(&self, v: &Vec3) -> (r: Scalar)
        ensures
            r == self.of_spec(*v),
    {
        match self {
            Axis::X => v.x,
            Axis::Y => v.y,
            Axis::Z => v.z,
        }
    }
}

/// The axis along which `extent` is longest; of equally long axes x goes
/// before y, and y before z.
pub open spec fn longest_axis_spec(extent: Vec3) -> Axis {
    if !extent.x.lt_spec(extent.y) && !extent.x.lt_spec(extent.z) {
        Axis::X
    } else if !extent.y.lt_spec(extent.z) {
        Axis::Y
    } else {
        Axis::Z
    }
}

/// The axis along which `extent` is longest.
pub fn longest_axis(extent: &Vec3) -> (r: Axis)
    ensures
        r == longest_axis_spec(*extent),
{
    if !extent.x.lt(&extent.y) && !extent.x.lt(&extent.z) {
        Axis::X
    } else if !extent.y.lt(&extent.z) {
        Axis::Y
    } else {
        Axis::Z
    }
}

fn lower(a: Scalar, b: Scalar) -> (r: Scalar)
    ensures
        r == (if b.lt_spec(a) {
            b
        } else {
            a
        }),
{
    if b.lt(&a) {
        b
    } else {
        a
    }
}

fn upper(a: Scalar, b: Scalar) -> (r: Scalar)
    ensures
        r == (if a.lt_spec(b) {
            b
        } else {
            a
        }),
{
    if a.lt(&b) {
        b
    } else {
        a
    }
}

impl Aabb {
    /// The corners are numbers, and the lower is not above the upper.
    pub open spec fn wf(self) -> bool {
        &&& self.lo.x.le_spec(self.hi.x)
        &&& self.lo.y.le_spec(self.hi.y)
        &&& self.lo.z.le_spec(self.hi.z)
    }

    /// Whether `inner` lies within this box.
    pub open spec fn contains(self, inner: Aabb) -> bool {
        &&& self.lo.x.le_spec(inner.lo.x) && inner.hi.x.le_spec(self.hi.x)
        &&& self.lo.y.le_spec(inner.lo.y) && inner.hi.y.le_spec(self.hi.y)
        &&& self.lo.z.le_spec(inner.lo.z) && inner.hi.z.le_spec(self.hi.z)
    }

    /// The smallest box around two boxes.
    pub open spec fn union_spec(self, other: Aabb) -> Aabb {
        Aabb {
            lo: Vec3 {
                x: if other.lo.x.lt_spec(self.lo.x) { other.lo.x } else { self.lo.x },
                y: if other.lo.y.lt_spec(self.lo.y) { other.lo.y } else { self.lo.y },
                z: if other.lo.z.lt_spec(self.lo.z) { other.lo.z } else { self.lo.z },
            },
            hi: Vec3 {
                x: if self.hi.x.lt_spec(other.hi.x) { other.hi.x } else { self.hi.x },
                y: if self.hi.y.lt_spec(other.hi.y) { other.hi.y } else { self.hi.y },
                z: if self.hi.z.lt_spec(other.hi.z) { other.hi.z } else { self.hi.z },
            },
        }
    }

    /// The smallest box around two boxes.
    pub fn union(&self, other: &Aabb) -> (r: Aabb)
        ensures
            r == self.union_spec(*other),
            self.wf() && other.wf() ==> r.wf() && r.contains(*self) && r.contains(*other),
    {
        Aabb {
            lo: Vec3 {
                x: lower(self.lo.x, other.lo.x),
                y: lower(self.lo.y, other.lo.y),
                z: lower(self.lo.z, other.lo.z),
            },
            hi: Vec3 {
                x: upper(self.hi.x, other.hi.x),
                y: upper(self.hi.y, other.hi.y),
                z: upper(self.hi.z, other.hi.z),
            },
        }
    }
}

/// Whether no component of any of the points is NaN.
pub open spec fn are_numbers(points: Seq<Vec3>) -> bool {
    forall|i: int|
        0 <= i < points.len() ==> !(#[trigger] points[i]).x.is_nan_spec() && !points[i].y.is_nan_spec()
            && !points[i].z.is_nan_spec()
}

/// Whether `b` is the smallest box around the points: it holds each of them,
/// and each of its six sides passes through one of them.
pub open spec fn is_box_around(b: Aabb, points: Seq<Vec3>) -> bool {
    &&& forall|i: int|
        0 <= i < points.len() ==> b.contains(Aabb { lo: #[trigger] points[i], hi: points[i] })
    &&& exists|i: int| 0 <= i < points.len() && b.lo.x == (#[trigger] points[i]).x
    &&& exists|i: int| 0 <= i < points.len() && b.lo.y == (#[trigger] points[i]).y
    &&& exists|i: int| 0 <= i < points.len() && b.lo.z == (#[trigger] points[i]).z
    &&& exists|i: int| 0 <= i < points.len() && b.hi.x == (#[trigger] points[i]).x
    &&& exists|i: int| 0 <= i < points.len() && b.hi.y == (#[trigger] points[i]).y
    &&& exists|i: int| 0 <= i < points.len() && b.hi.z == (#[trigger] points[i]).z
}

/// The box that grows from the first point by taking in one point after the
/// other.
pub open spec fn box_spec(points: Seq<Vec3>) -> Aabb
    decreases points.len(),
{
    if points.len() <= 1 {
        Aabb { lo: points[0], hi: points[0] }
    } else {
        box_spec(points.drop_last()).union_spec(Aabb { lo: points.last(), hi: points.last() })
    }
}

impl Aabb {
    /// The smallest box around the points; `None` without a point.
    pub fn around(points: &Vec<Vec3>) -> (r: Option<Aabb>)
        ensures
            r.is_none() <==> points@.len() == 0,
            r matches Some(b) ==> b == box_spec(points@),
            r matches Some(b) ==> (are_numbers(points@) ==> is_box_around(b, points@)),
    {
        let n = points.len();
        if n == 0 {
            return None;
        }
        let mut acc = Aabb { lo: points[0], hi: points[0] };
        let ghost mut at_lo = (0int, 0int, 0int);
        let ghost mut at_hi = (0int, 0int, 0int);
        let mut k: usize = 1;
        assert(points@.subrange(0, 1)[0] == points@[0]);
        while k < n
            invariant
                n == points@.len(),
                1 <= k <= n,
                acc == box_spec(points@.subrange(0, k as int)),
                0 <= at_lo.0 < k && 0 <= at_lo.1 < k && 0 <= at_lo.2 < k,
                0 <= at_hi.0 < k && 0 <= at_hi.1 < k && 0 <= at_hi.2 < k,
                acc.lo.x == points@[at_lo.0].x,
                acc.lo.y == points@[at_lo.1].y,
                acc.lo.z == points@[at_lo.2].z,
                acc.hi.x == points@[at_hi.0].x,
                acc.hi.y == points@[at_hi.1].y,
                acc.hi.z == points@[at_hi.2].z,
                are_numbers(points@) ==> forall|i: int|
                    0 <= i < k ==> acc.contains(Aabb { lo: #[trigger] points@[i], hi: points@[i] }),
            decreases n - k,
        {
            let p = points[k];
            let next = acc.union(&Aabb { lo: p, hi: p });
            proof {
                let grown = points@.subrange(0, k + 1);
                assert(grown.drop_last() == points@.subrange(0, k as int));
                assert(grown.last() == p);
                if p.x.lt_spec(acc.lo.x) {
                    at_lo = (k as int, at_lo.1, at_lo.2);
                }
                if p.y.lt_spec(acc.lo.y) {
                    at_lo = (at_lo.0, k as int, at_lo.2);
                }
                if p.z.lt_spec(acc.lo.z) {
                    at_lo = (at_lo.0, at_lo.1, k as int);
                }
                if acc.hi.x.lt_spec(p.x) {
                    at_hi = (k as int, at_hi.1, at_hi.2);
                }
                if acc.hi.y.lt_spec(p.y) {
                    at_hi = (at_hi.0, k as int, at_hi.2);
                }
                if acc.hi.z.lt_spec(p.z) {
                    at_hi = (at_hi.0, at_hi.1, k as int);
                }
                if are_numbers(points@) {
                    assert(!points@[at_lo.0].x.is_nan_spec() && !points@[at_hi.0].x.is_nan_spec());
                    assert(!points@[at_lo.1].y.is_nan_spec() && !points@[at_hi.1].y.is_nan_spec());
                    assert(!points@[at_lo.2].z.is_nan_spec() && !points@[at_hi.2].z.is_nan_spec());
                    assert(!points@[k as int].x.is_nan_spec());
                    assert forall|i: int| 0 <= i < k + 1 implies next.contains(
                        Aabb { lo: #[trigger] points@[i], hi: points@[i] },
                    ) by {
                        if i < k {
                            assert(acc.contains(Aabb { lo: points@[i], hi: points@[i] }));
                        }
                    }
                }
            }
            acc = next;
            k += 1;
        }
        assert(points@.subrange(0, n as int) == points@);
        Some(acc)
    }
}

/// Within is transitive: a box around a box holds what that box holds.
pub proof fn lemma_contains_transitive(a: Aabb, b: Aabb, c: Aabb)
    requires
        a.contains(b),
        b.contains(c),
    ensures
        a.contains(c),
{
}

#[derive(Debug)]
pub struct KdTree {
    pub nodes: Vec<KdNode>,
    /// The box of each node.
    pub boxes: Vec<Aabb>,
    /// Primitive numbers; leaves own ranges of this list.
    pub order: Vec<usize>,
    /// The primitives that are tested for every ray.
    pub unconditional: Vec<usize>,
    /// Number of primitives of the frame.
    pub prims: usize,
}

/// The primitives of a leaf.
pub open spec fn leaf_set(order: Seq<usize>, first: int, count: int) -> Set<usize> {
    Set::new(|p: usize| exists|k: int| first <= k < first + count && #[trigger] order[k] == p)
}

/// The primitives under node `n`: those of its leaves.
pub open spec fn under(nodes: Seq<KdNode>, order: Seq<usize>, n: int) -> Set<usize>
    decreases n,
{
    if n < 0 || n >= nodes.len() {
        Set::empty()
    } else {
        match nodes[n] {
            KdNode::Leaf { first, count } => leaf_set(order, first as int, count as int),
            KdNode::Split { left, right, .. } => if left < n && right < n {
                under(nodes, order, left as int).union(under(nodes, order, right as int))
            } else {
                Set::empty()
            },
        }
    }
}

/// Whether the arena is a tree over `prims` primitives: children stand before
/// their parent, leaves own ranges of `order`, and `order` names primitives.
pub open spec fn arena_wf(nodes: Seq<KdNode>, order: Seq<usize>, prims: int) -> bool {
    &&& forall|n: int|
        0 <= n < nodes.len() ==> match #[trigger] nodes[n] {
            KdNode::Leaf { first, count } => first + count <= order.len(),
            KdNode::Split { left, right, .. } => left < n && right < n,
        }
    &&& forall|k: int| 0 <= k < order.len() ==> #[trigger] order[k] < prims
}

impl KdTree {
    pub open spec fn wf(&self) -> bool {
        &&& arena_wf(self.nodes@, self.order@, self.prims as int)
        &&& self.boxes@.len() == self.nodes@.len()
        &&& forall|k: int|
            0 <= k < self.unconditional@.len() ==> #[trigger] self.unconditional@[k] < self.prims
    }

    /// The primitives in the tree.
    pub open spec fn indexed(&self) -> Set<usize> {
        under(self.nodes@, self.order@, self.nodes@.len() - 1)
    }

    /// The primitives that a ray is tested against: those in the tree and
    /// those beside it.
    pub open spec fn reachable(&self, p: usize) -> bool {
        self.indexed().contains(p) || self.unconditional@.contains(p)
    }
}

/// A hit that was found: the primitive and the result of its test.
pub type Found = Option<(usize, HitResult)>;

/// Whether `best` is a result of testing a primitive.
pub open spec fn valid<H: Fn(usize) -> Option<HitResult>>(hit: H, best: Found, prims: int) -> bool {
    best matches Some((i, h)) ==> i < prims && call_ensures(hit, (i,), Some(h))
}

/// Whether no hit of primitive `p` is closer than `best`.
pub open spec fn settled<H: Fn(usize) -> Option<HitResult>>(hit: H, p: usize, best: Found) -> bool {
    forall|h: HitResult| #[trigger]
        call_ensures(hit, (p,), Some(h)) ==> best.is_some() && best.unwrap().1.l.le_spec(h.l)
}

/// Whether `next` is at least as close as `best`.
pub open spec fn improves(best: Found, next: Found) -> bool {
    best matches Some((_, b)) ==> next.is_some() && next.unwrap().1.l.le_spec(b.l)
}

/// Whether every hit that the test reports is a hit: its ray parameter is a
/// number beyond the tolerance.
pub open spec fn hits_are_hits<H: Fn(usize) -> Option<HitResult>>(hit: H) -> bool {
    forall|p: usize, h: HitResult| #[trigger] call_ensures(hit, (p,), Some(h)) ==> h.wf()
}

/// Whether the test of a primitive is a function: the same primitive gives
/// the same result.
pub open spec fn hit_is_function<H: Fn(usize) -> Option<HitResult>>(hit: H) -> bool {
    forall|p: usize, a: Option<HitResult>, b: Option<HitResult>|
        #![trigger call_ensures(hit, (p,), a), call_ensures(hit, (p,), b)]
        call_ensures(hit, (p,), a) && call_ensures(hit, (p,), b) ==> a == b
}

/// Whether the test of a box is conservative: a ray that hits a primitive
/// under a node enters the box of the node, and not later than it hits the
/// primitive.
pub open spec fn boxes_are_conservative<
    S: Fn(usize) -> Option<Scalar>,
    H: Fn(usize) -> Option<HitResult>,
>(nodes: Seq<KdNode>, order: Seq<usize>, slab: S, hit: H) -> bool {
    forall|n: usize, p: usize, h: HitResult, near: Option<Scalar>|
        #![trigger call_ensures(slab, (n,), near), call_ensures(hit, (p,), Some(h))]
        under(nodes, order, n as int).contains(p) && call_ensures(hit, (p,), Some(h))
            && call_ensures(slab, (n,), near) ==> near.is_some() && near.unwrap().le_spec(h.l)
}

/// What the tree needs of the tests it is given to be exact.
pub open spec fn tests_are_sound<S: Fn(usize) -> Option<Scalar>, H: Fn(usize) -> Option<HitResult>>(
    nodes: Seq<KdNode>,
    order: Seq<usize>,
    slab: S,
    hit: H,
) -> bool {
    &&& hits_are_hits(hit)
    &&& hit_is_function(hit)
    &&& boxes_are_conservative(nodes, order, slab, hit)
}

/// What is settled stays settled when a closer hit is found.
pub proof fn lemma_settled_persists<H: Fn(usize) -> Option<HitResult>>(
    hit: H,
    p: usize,
    best: Found,
    next: Found,
)
    requires
        settled(hit, p, best),
        improves(best, next),
    ensures
        settled(hit, p, next),
{
    assert forall|h: HitResult| #[trigger] call_ensures(hit, (p,), Some(h)) implies next.is_some()
        && next.unwrap().1.l.le_spec(h.l) by {
        assert(best.is_some() && best.unwrap().1.l.le_spec(h.l));
    }
}

/// Tests primitive `p` and keeps the closer of its hit and `best`; of equally
/// close ones `best` stays.
fn test_one<H: Fn(usize) -> Option<HitResult>>(hit: &H, p: usize, best: Found, prims: usize) -> (r:
    Found)
    requires
        call_requires(*hit, (p,)),
        p < prims,
        valid(*hit, best, prims as int),
    ensures
        valid(*hit, r, prims as int),
        hits_are_hits(*hit) ==> improves(best, r),
        hits_are_hits(*hit) && hit_is_function(*hit) ==> settled(*hit, p, r),
{
    let found = hit(p);
    match found {
        None => best,
        Some(h) => {
            let closer = match best {
                None => true,
                Some((_, b)) => h.l.lt(&b.l),
            };
            if closer {
                Some((p, h))
            } else {
                best
            }
        },
    }
}

impl KdTree {
    /// Whether the two tests may be called on every node and every primitive
    /// of the tree.
    pub open spec fn tests_apply<S: Fn(usize) -> Option<Scalar>, H: Fn(usize) -> Option<HitResult>>(
        &self,
        slab: S,
        hit: H,
    ) -> bool {
        &&& forall|n: usize| n < self.nodes@.len() ==> call_requires(slab, (n,))
        &&& forall|p: usize| p < self.prims ==> call_requires(hit, (p,))
    }

    /// Tests the primitives of a leaf.
    fn visit_leaf<H: Fn(usize) -> Option<HitResult>>(
        &self,
        first: usize,
        count: usize,
        best: Found,
        hit: &H,
    ) -> (r: Found)
        requires
            self.wf(),
            first + count <= self.order@.len(),
            forall|p: usize| p < self.prims ==> call_requires(*hit, (p,)),
            valid(*hit, best, self.prims as int),
        ensures
            valid(*hit, r, self.prims as int),
            hits_are_hits(*hit) ==> improves(best, r),
            hits_are_hits(*hit) && hit_is_function(*hit) ==> forall|p: usize|
                leaf_set(self.order@, first as int, count as int).contains(p) ==> settled(
                    *hit,
                    p,
                    r,
                ),
    {
        let mut cur = best;
        assert(self.order@.len() == self.order.len());
        let end = first + count;
        let mut k = first;
        while k < end
            invariant
                self.wf(),
                first <= k <= end,
                end == first + count,
                end <= self.order@.len(),
                forall|p: usize| p < self.prims ==> call_requires(*hit, (p,)),
                valid(*hit, cur, self.prims as int),
                hits_are_hits(*hit) ==> improves(best, cur),
                hits_are_hits(*hit) && hit_is_function(*hit) ==> forall|j: int|
                    first <= j < k ==> settled(*hit, #[trigger] self.order@[j], cur),
            decreases end - k,
        {
            let p = self.order[k];
            let next = test_one(hit, p, cur, self.prims);
            proof {
                if hits_are_hits(*hit) && hit_is_function(*hit) {
                    assert forall|j: int| first <= j < k + 1 implies settled(
                        *hit,
                        #[trigger] self.order@[j],
                        next,
                    ) by {
                        if j < k {
                            lemma_settled_persists(*hit, self.order@[j], cur, next);
                        }
                    }
                }
            }
            cur = next;
            k += 1;
        }
        cur
    }

    /// Descends into child `c`, whose box the ray enters at `near` if at all,
    /// unless nothing under it can be closer than `best`.
    fn visit_child<S: Fn(usize) -> Option<Scalar>, H: Fn(usize) -> Option<HitResult>>(
        &self,
        c: usize,
        near: Option<Scalar>,
        best: Found,
        slab: &S,
        hit: &H,
    ) -> (r: Found)
        requires
            self.wf(),
            c < self.nodes@.len(),
            self.tests_apply(*slab, *hit),
            call_ensures(*slab, (c,), near),
            valid(*hit, best, self.prims as int),
        ensures
            valid(*hit, r, self.prims as int),
            tests_are_sound(self.nodes@, self.order@, *slab, *hit) ==> improves(best, r)
                && forall|p: usize|
                under(self.nodes@, self.order@, c as int).contains(p) ==> settled(*hit, p, r),
        decreases c, 1int,
    {
        let entry = match near {
            Some(entry) => entry,
            None => {
                return best;
            },
        };
        let behind = match best {
            Some((_, b)) => b.l.lt(&entry),
            None => false,
        };
        if behind {
            return best;
        }
        self.visit(c, best, slab, hit)
    }

    /// Tests what lies under node `n`, nearer child first.
    fn visit<S: Fn(usize) -> Option<Scalar>, H: Fn(usize) -> Option<HitResult>>(
        &self,
        n: usize,
        best: Found,
        slab: &S,
        hit: &H,
    ) -> (r: Found)
        requires
            self.wf(),
            n < self.nodes@.len(),
            self.tests_apply(*slab, *hit),
            valid(*hit, best, self.prims as int),
        ensures
            valid(*hit, r, self.prims as int),
            tests_are_sound(self.nodes@, self.order@, *slab, *hit) ==> improves(best, r)
                && forall|p: usize|
                under(self.nodes@, self.order@, n as int).contains(p) ==> settled(*hit, p, r),
        decreases n, 0int,
    {
        match self.nodes[n] {
            KdNode::Leaf { first, count } => self.visit_leaf(first, count, best, hit),
            KdNode::Split { left, right, .. } => {
                let near_left = slab(left);
                let near_right = slab(right);
                let left_first = match (near_left, near_right) {
                    (Some(a), Some(b)) => !b.lt(&a),
                    _ => true,
                };
                let (c1, n1, c2, n2) = if left_first {
                    (left, near_left, right, near_right)
                } else {
                    (right, near_right, left, near_left)
                };
                let r1 = self.visit_child(c1, n1, best, slab, hit);
                let r2 = self.visit_child(c2, n2, r1, slab, hit);
                proof {
                    if tests_are_sound(self.nodes@, self.order@, *slab, *hit) {
                        assert forall|p: usize|
                            under(self.nodes@, self.order@, n as int).contains(p) implies settled(
                            *hit,
                            p,
                            r2,
                        ) by {
                            if under(self.nodes@, self.order@, c1 as int).contains(p) {
                                lemma_settled_persists(*hit, p, r1, r2);
                            }
                        }
                    }
                }
                r2
            },
        }
    }

    /// The closest hit of a ray, and the primitive that it hits.
    ///
    /// `hit` tests the ray against a primitive; `slab` tests it against the
    /// box of a node and tells where the ray enters the box. The result is the
    /// result of testing some primitive. Where the tests are sound (see
    /// [`tests_are_sound`]), no primitive in or beside the tree is hit closer:
    /// the result is what testing every primitive in turn would find.
    pub fn closest<S: Fn(usize) -> Option<Scalar>, H: Fn(usize) -> Option<HitResult>>(
        &self,
        slab: S,
        hit: H,
    ) -> (r: Found)
        requires
            self.wf(),
            self.tests_apply(slab, hit),
        ensures
            valid(hit, r, self.prims as int),
            tests_are_sound(self.nodes@, self.order@, slab, hit) ==> forall|p: usize|
                self.reachable(p) ==> settled(hit, p, r),
    {
        let mut best: Found = None;
        let count = self.unconditional.len();
        let mut k: usize = 0;
        while k < count
            invariant
                self.wf(),
                self.tests_apply(slab, hit),
                count == self.unconditional@.len(),
                0 <= k <= count,
                valid(hit, best, self.prims as int),
                hits_are_hits(hit) && hit_is_function(hit) ==> forall|j: int|
                    0 <= j < k ==> settled(hit, #[trigger] self.unconditional@[j], best),
            decreases count - k,
        {
            let p = self.unconditional[k];
            let next = test_one(&hit, p, best, self.prims);
            proof {
                if hits_are_hits(hit) && hit_is_function(hit) {
                    assert forall|j: int| 0 <= j < k + 1 implies settled(
                        hit,
                        #[trigger] self.unconditional@[j],
                        next,
                    ) by {
                        if j < k {
                            lemma_settled_persists(hit, self.unconditional@[j], best, next);
                        }
                    }
                }
            }
            best = next;
            k += 1;
        }
        let len = self.nodes.len();
        if len == 0 {
            return best;
        }
        let root = len - 1;
        let near = slab(root);
        let r = self.visit_child(root, near, best, &slab, &hit);
        proof {
            if tests_are_sound(self.nodes@, self.order@, slab, hit) {
                assert forall|p: usize| self.reachable(p) implies settled(hit, p, r) by {
                    if self.unconditional@.contains(p) {
                        let j = choose|j: int|
                            0 <= j < self.unconditional@.len() && self.unconditional@[j] == p;
                        lemma_settled_persists(hit, self.unconditional@[j], best, r);
                    }
                }
            }
        }
        r
    }
}

/// The tree finds what a scan finds. Let `hits` be the results of testing a
/// ray against every primitive in turn, and `found` a result of the tree that
/// settles every primitive. Then both find nothing, or both find a hit, and the
/// hit of the tree is as close as the closest hit of the scan.
pub proof fn lemma_tree_agrees_with_scan<H: Fn(usize) -> Option<HitResult>>(
    hit: H,
    hits: Seq<Option<HitResult>>,
    found: Found,
)
    requires
        hits_are_hits(hit),
        hit_is_function(hit),
        hits.len() <= usize::MAX,
        forall|p: int| 0 <= p < hits.len() ==> call_ensures(hit, (p as usize,), #[trigger] hits[p]),
        valid(hit, found, hits.len() as int),
        forall|p: usize| p < hits.len() ==> settled(hit, p, found),
    ensures
        found.is_none() <==> forall|p: int| 0 <= p < hits.len() ==> (#[trigger] hits[p]).is_none(),
        forall|at: int|
            is_nearest(hits, at) ==> found.is_some() && found.unwrap().1.l.key()
                == hits[at].unwrap().l.key(),
{
    if found.is_some() {
        let (i, h) = found.unwrap();
        assert(call_ensures(hit, (i,), Some(h)));
        assert(call_ensures(hit, (i,), hits[i as int]));
        assert(hits[i as int] == Some(h));
    } else {
        assert forall|p: int| 0 <= p < hits.len() implies (#[trigger] hits[p]).is_none() by {
            if hits[p].is_some() {
                assert(call_ensures(hit, (p as usize,), hits[p]));
                assert(settled(hit, p as usize, found));
                assert(call_ensures(hit, (p as usize,), Some(hits[p].unwrap())));
            }
        }
    }
    assert forall|at: int| is_nearest(hits, at) implies found.is_some() && found.unwrap().1.l.key()
        == hits[at].unwrap().l.key() by {
        let ha = hits[at].unwrap();
        assert(call_ensures(hit, (at as usize,), hits[at]));
        assert(call_ensures(hit, (at as usize,), Some(ha)));
        assert(settled(hit, at as usize, found));
        let (i, h) = found.unwrap();
        assert(call_ensures(hit, (i,), hits[i as int]));
        assert(hits[i as int] == Some(h));
    }
}

} // verus!
