//! Building the k-d tree of a frame.
//!
//! A node is split at the median of the centres of its primitives along the
//! longest axis of its box. Splitting stops where the greatest depth is
//! reached, where a node holds few primitives, and where the plane would part
//! nothing. What straddles a plane is listed on both sides.

use vstd::prelude::*;
use crate::accel::{
    arena_wf, leaf_set, lemma_contains_transitive, longest_axis, longest_axis_spec, under, Aabb,
    Axis, KdNode, KdTree,
};
use crate::scalar::Vec3;

verus! {

/// Primitives in a node at which splitting stops.
pub const LEAF_SIZE: usize = 4;

/// Whether `a` is the first part of `b`.
pub open spec fn is_prefix<T>(a: Seq<T>, b: Seq<T>) -> bool {
    a.len() <= b.len() && forall|k: int| 0 <= k < a.len() ==> a[k] == b[k]
}

/// Growing the arena changes nothing under the nodes that were there.
pub proof fn lemma_under_frame(
    nodes: Seq<KdNode>,
    order: Seq<usize>,
    grown_nodes: Seq<KdNode>,
    grown_order: Seq<usize>,
    prims: int,
    n: int,
)
    requires
        arena_wf(nodes, order, prims),
        is_prefix(nodes, grown_nodes),
        is_prefix(order, grown_order),
        0 <= n < nodes.len(),
    ensures
        under(grown_nodes, grown_order, n) == under(nodes, order, n),
    decreases n,
{
    assert(grown_nodes[n] == nodes[n]);
    match nodes[n] {
        KdNode::Leaf { first, count } => {
            let a = leaf_set(order, first as int, count as int);
            let b = leaf_set(grown_order, first as int, count as int);
            assert forall|p: usize| a.contains(p) <==> b.contains(p) by {
                if a.contains(p) {
                    let k = choose|k: int| first <= k < first + count && #[trigger] order[k] == p;
                    assert(grown_order[k] == p);
                }
                if b.contains(p) {
                    let k = choose|k: int|
                        first <= k < first + count && #[trigger] grown_order[k] == p;
                    assert(order[k] == p);
                }
            }
            assert(a =~= b);
        },
        KdNode::Split { left, right, .. } => {
            lemma_under_frame(nodes, order, grown_nodes, grown_order, prims, left as int);
            lemma_under_frame(nodes, order, grown_nodes, grown_order, prims, right as int);
        },
    }
}

/// What a list holds after one more item: what it held, and the item.
pub proof fn lemma_push_contains<T>(s: Seq<T>, x: T)
    ensures
        forall|q: T| #[trigger] s.push(x).contains(q) <==> (s.contains(q) || q == x),
{
    assert forall|q: T| #[trigger] s.push(x).contains(q) <==> (s.contains(q) || q == x) by {
        let t = s.push(x);
        if t.contains(q) {
            let i = choose|i: int| 0 <= i < t.len() && t[i] == q;
            if i < s.len() {
                assert(s[i] == q);
            }
        }
        if s.contains(q) {
            let i = choose|i: int| 0 <= i < s.len() && s[i] == q;
            assert(t[i] == q);
        }
        assert(t[s.len() as int] == x);
    }
}

/// Number of splits on the longest way from node `n` down to a leaf.
pub open spec fn height(nodes: Seq<KdNode>, n: int) -> nat
    decreases n,
{
    if n < 0 || n >= nodes.len() {
        0
    } else {
        match nodes[n] {
            KdNode::Leaf { .. } => 0,
            KdNode::Split { left, right, .. } => if left < n && right < n {
                let l = height(nodes, left as int);
                let r = height(nodes, right as int);
                if l >= r {
                    l + 1
                } else {
                    r + 1
                }
            } else {
                0
            },
        }
    }
}

/// Growing the arena changes no height of the nodes that were there.
pub proof fn lemma_height_frame(nodes: Seq<KdNode>, grown_nodes: Seq<KdNode>, n: int)
    requires
        is_prefix(nodes, grown_nodes),
        0 <= n < nodes.len(),
    ensures
        height(grown_nodes, n) == height(nodes, n),
    decreases n,
{
    assert(grown_nodes[n] == nodes[n]);
    match nodes[n] {
        KdNode::Leaf { .. } => {},
        KdNode::Split { left, right, .. } => {
            if left < n && right < n {
                lemma_height_frame(nodes, grown_nodes, left as int);
                lemma_height_frame(nodes, grown_nodes, right as int);
            }
        },
    }
}

/// Whether the list ascends.
pub open spec fn ascends(keys: Seq<i64>) -> bool {
    forall|i: int, j: int| 0 <= i <= j < keys.len() ==> keys[i] <= keys[j]
}

/// Whether `m` is the median of the keys: the middle one of the keys put in
/// ascending order, the upper of the two middle ones where there is an even
/// number.
pub open spec fn is_median(keys: Seq<i64>, m: i64) -> bool {
    exists|sorted: Seq<i64>|
        #![trigger ascends(sorted)]
        ascends(sorted) && sorted.to_multiset() == keys.to_multiset() && sorted.len() == keys.len()
            && m == sorted[keys.len() as int / 2]
}

/// `[i64]::sort_unstable`: the keys are put in ascending order; none is added
/// and none is lost.
#[verifier::external_body]
fn sort_keys(keys: &mut Vec<i64>)
    ensures
        ascends(final(keys)@),
        final(keys)@.to_multiset() == old(keys)@.to_multiset(),
        final(keys)@.len() == old(keys)@.len(),
{
    keys.sort_unstable();
}

/// The median of the keys.
fn median_key(keys: Vec<i64>) -> (m: i64)
    requires
        keys@.len() >= 1,
    ensures
        is_median(keys@, m),
{
    let mut sorted = keys;
    sort_keys(&mut sorted);
    let m = sorted[sorted.len() / 2];
    assert(ascends(sorted@));
    m
}

/// Whether primitive `p` goes to the left of the plane: it starts at or
/// before it.
pub open spec fn goes_left(boxes: Seq<Aabb>, p: usize, axis: Axis, plane: i64) -> bool {
    axis.of_spec(boxes[p as int].lo).key() <= plane
}

/// Whether primitive `p` goes to the right of the plane: it ends behind it,
/// or does not go to the left.
pub open spec fn goes_right(boxes: Seq<Aabb>, p: usize, axis: Axis, plane: i64) -> bool {
    axis.of_spec(boxes[p as int].hi).key() > plane || !goes_left(boxes, p, axis, plane)
}

/// The primitives of the list that go to one side of the plane, in the order
/// of the list. What straddles the plane goes to both sides.
pub open spec fn side(boxes: Seq<Aabb>, list: Seq<usize>, axis: Axis, plane: i64, left: bool) -> Seq<
    usize,
>
    decreases list.len(),
{
    if list.len() == 0 {
        Seq::empty()
    } else {
        let head = side(boxes, list.drop_last(), axis, plane, left);
        let p = list.last();
        if (left && goes_left(boxes, p, axis, plane)) || (!left && goes_right(
            boxes,
            p,
            axis,
            plane,
        )) {
            head.push(p)
        } else {
            head
        }
    }
}

/// Whether the plane parts nothing: the whole list goes to one side.
pub open spec fn parts_nothing(boxes: Seq<Aabb>, list: Seq<usize>, axis: Axis, plane: i64) -> bool {
    side(boxes, list, axis, plane, true).len() == list.len() || side(
        boxes,
        list,
        axis,
        plane,
        false,
    ).len() == list.len()
}

/// Each side holds primitives of the list only, and every primitive of the
/// list is on some side.
pub proof fn lemma_sides(boxes: Seq<Aabb>, list: Seq<usize>, axis: Axis, plane: i64)
    ensures
        side(boxes, list, axis, plane, true).len() <= list.len(),
        side(boxes, list, axis, plane, false).len() <= list.len(),
        side(boxes, list, axis, plane, true).len() + side(boxes, list, axis, plane, false).len()
            >= list.len(),
        forall|j: int|
            0 <= j < side(boxes, list, axis, plane, true).len() ==> list.contains(
                #[trigger] side(boxes, list, axis, plane, true)[j],
            ),
        forall|j: int|
            0 <= j < side(boxes, list, axis, plane, false).len() ==> list.contains(
                #[trigger] side(boxes, list, axis, plane, false)[j],
            ),
        forall|k: int|
            0 <= k < list.len() ==> side(boxes, list, axis, plane, true).contains(
                #[trigger] list[k],
            ) || side(boxes, list, axis, plane, false).contains(list[k]),
    decreases list.len(),
{
    if list.len() > 0 {
        let head = list.drop_last();
        let p = list.last();
        lemma_sides(boxes, head, axis, plane);
        let l0 = side(boxes, head, axis, plane, true);
        let r0 = side(boxes, head, axis, plane, false);
        let l = side(boxes, list, axis, plane, true);
        let r = side(boxes, list, axis, plane, false);
        lemma_push_contains(l0, p);
        lemma_push_contains(r0, p);
        lemma_push_contains(head, p);
        assert(list == head.push(p));
        assert forall|j: int| 0 <= j < l.len() implies list.contains(#[trigger] l[j]) by {
            if j < l0.len() {
                assert(l[j] == l0[j]);
                assert(head.contains(l0[j]));
            }
        }
        assert forall|j: int| 0 <= j < r.len() implies list.contains(#[trigger] r[j]) by {
            if j < r0.len() {
                assert(r[j] == r0[j]);
                assert(head.contains(r0[j]));
            }
        }
        assert forall|k: int| 0 <= k < list.len() implies l.contains(#[trigger] list[k])
            || r.contains(list[k]) by {
            if k < head.len() {
                assert(head[k] == list[k]);
                assert(l0.contains(head[k]) || r0.contains(head[k]));
            }
        }
    }
}

/// The smallest box around the boxes of the listed primitives.
pub open spec fn bounds_spec(boxes: Seq<Aabb>, list: Seq<usize>) -> Aabb
    decreases list.len(),
{
    if list.len() <= 1 {
        boxes[list[0] as int]
    } else {
        bounds_spec(boxes, list.drop_last()).union_spec(boxes[list.last() as int])
    }
}

/// The positions of the centres of the listed primitives along an axis.
pub open spec fn centre_keys(centres: Seq<Vec3>, list: Seq<usize>, axis: Axis) -> Seq<i64> {
    Seq::new(list.len(), |k: int| axis.of_spec(centres[list[k] as int]).key() as i64)
}

/// Whether `axis` and `plane` are what a node over `list` with the box
/// `bounds` is split at: the axis along which the box is longest, and the
/// median of the centres along that axis.
pub open spec fn chosen<E: Fn(Aabb) -> Vec3>(
    extent: E,
    centres: Seq<Vec3>,
    list: Seq<usize>,
    bounds: Aabb,
    axis: Axis,
    plane: i64,
) -> bool {
    &&& exists|e: Vec3| #[trigger] call_ensures(extent, (bounds,), e) && axis == longest_axis_spec(e)
    &&& is_median(centre_keys(centres, list, axis), plane)
}

/// Whether node `n` is the tree over `list` with `depth` splits above it.
///
/// The box of the node is the smallest box around its primitives. A node with
/// `max_depth` splits above it, or with no more than `LEAF_SIZE` primitives,
/// or whose plane would part nothing, is a leaf that owns the list. Any other
/// node is split at the median of the centres along the longest axis of its
/// box, and its children are the trees over the two sides of the list.
pub open spec fn grown<E: Fn(Aabb) -> Vec3>(
    nodes: Seq<KdNode>,
    node_boxes: Seq<Aabb>,
    order: Seq<usize>,
    extent: E,
    boxes: Seq<Aabb>,
    centres: Seq<Vec3>,
    n: int,
    list: Seq<usize>,
    depth: int,
    max_depth: int,
) -> bool
    decreases n,
{
    &&& 0 <= n < nodes.len()
    &&& n < node_boxes.len()
    &&& node_boxes[n] == bounds_spec(boxes, list)
    &&& match nodes[n] {
        KdNode::Leaf { first, count } => {
            &&& first + count <= order.len()
            &&& order.subrange(first as int, first + count) == list
            &&& (depth >= max_depth || list.len() <= LEAF_SIZE || exists|axis: Axis, plane: i64|
                #[trigger] chosen(extent, centres, list, node_boxes[n], axis, plane)
                    && parts_nothing(boxes, list, axis, plane))
        },
        KdNode::Split { axis, plane, left, right } => {
            &&& left < n
            &&& right < n
            &&& depth < max_depth
            &&& list.len() > LEAF_SIZE
            &&& chosen(extent, centres, list, node_boxes[n], axis, plane)
            &&& !parts_nothing(boxes, list, axis, plane)
            &&& grown(
                nodes,
                node_boxes,
                order,
                extent,
                boxes,
                centres,
                left as int,
                side(boxes, list, axis, plane, true),
                depth + 1,
                max_depth,
            )
            &&& grown(
                nodes,
                node_boxes,
                order,
                extent,
                boxes,
                centres,
                right as int,
                side(boxes, list, axis, plane, false),
                depth + 1,
                max_depth,
            )
        },
    }
}

/// Growing the arena leaves the trees that stand in it as they are.
pub proof fn lemma_grown_frame<E: Fn(Aabb) -> Vec3>(
    nodes: Seq<KdNode>,
    node_boxes: Seq<Aabb>,
    order: Seq<usize>,
    more_nodes: Seq<KdNode>,
    more_boxes: Seq<Aabb>,
    more_order: Seq<usize>,
    extent: E,
    boxes: Seq<Aabb>,
    centres: Seq<Vec3>,
    n: int,
    list: Seq<usize>,
    depth: int,
    max_depth: int,
)
    requires
        grown(nodes, node_boxes, order, extent, boxes, centres, n, list, depth, max_depth),
        is_prefix(nodes, more_nodes),
        is_prefix(node_boxes, more_boxes),
        is_prefix(order, more_order),
    ensures
        grown(more_nodes, more_boxes, more_order, extent, boxes, centres, n, list, depth, max_depth),
    decreases n,
{
    assert(more_nodes[n] == nodes[n]);
    assert(more_boxes[n] == node_boxes[n]);
    match nodes[n] {
        KdNode::Leaf { first, count } => {
            assert(more_order.subrange(first as int, first + count) =~= order.subrange(
                first as int,
                first + count,
            ));
        },
        KdNode::Split { axis, plane, left, right } => {
            lemma_grown_frame(
                nodes,
                node_boxes,
                order,
                more_nodes,
                more_boxes,
                more_order,
                extent,
                boxes,
                centres,
                left as int,
                side(boxes, list, axis, plane, true),
                depth + 1,
                max_depth,
            );
            lemma_grown_frame(
                nodes,
                node_boxes,
                order,
                more_nodes,
                more_boxes,
                more_order,
                extent,
                boxes,
                centres,
                right as int,
                side(boxes, list, axis, plane, false),
                depth + 1,
                max_depth,
            );
        },
    }
}

/// The listed primitives whose box is a box (`proper`), or those whose box is
/// none, in the order of the list.
pub open spec fn sorted_out(boxes: Seq<Aabb>, list: Seq<usize>, proper: bool) -> Seq<usize>
    decreases list.len(),
{
    if list.len() == 0 {
        Seq::empty()
    } else {
        let head = sorted_out(boxes, list.drop_last(), proper);
        if boxes[list.last() as int].wf() == proper {
            head.push(list.last())
        } else {
            head
        }
    }
}

/// Whether the boxes of the nodes hold the boxes `prim_boxes` of the
/// primitives under them.
pub open spec fn boxes_hold(
    nodes: Seq<KdNode>,
    order: Seq<usize>,
    node_boxes: Seq<Aabb>,
    prim_boxes: Seq<Aabb>,
) -> bool {
    forall|n: int, p: usize|
        #![trigger under(nodes, order, n).contains(p)]
        0 <= n < nodes.len() && under(nodes, order, n).contains(p) ==> p < prim_boxes.len()
            && node_boxes[n].contains(prim_boxes[p as int])
}

/// Whether the box of every listed primitive is a box.
pub open spec fn boxes_wf(prim_boxes: Seq<Aabb>, items: Seq<usize>) -> bool {
    forall|k: int|
        0 <= k < items.len() ==> items[k] < prim_boxes.len() && (#[trigger] prim_boxes[items[k] as int]).wf()
}

impl KdTree {
    /// The smallest box around the boxes of `items`.
    fn bounds_of(boxes: &Vec<Aabb>, items: &Vec<usize>) -> (r: Aabb)
        requires
            items@.len() >= 1,
            forall|k: int| 0 <= k < items@.len() ==> #[trigger] items@[k] < boxes@.len(),
        ensures
            r == bounds_spec(boxes@, items@),
            boxes_wf(boxes@, items@) ==> r.wf() && forall|k: int|
                0 <= k < items@.len() ==> r.contains(#[trigger] boxes@[items@[k] as int]),
    {
        let n = items.len();
        let mut acc = boxes[items[0]];
        let mut k: usize = 1;
        assert(items@.subrange(0, 1)[0] == items@[0]);
        while k < n
            invariant
                n == items@.len(),
                1 <= k <= n,
                forall|j: int| 0 <= j < items@.len() ==> #[trigger] items@[j] < boxes@.len(),
                acc == bounds_spec(boxes@, items@.subrange(0, k as int)),
                boxes_wf(boxes@, items@) ==> acc.wf() && forall|j: int|
                    0 <= j < k ==> acc.contains(#[trigger] boxes@[items@[j] as int]),
            decreases n - k,
        {
            let next = acc.union(&boxes[items[k]]);
            proof {
                let grown_list = items@.subrange(0, k + 1);
                assert(grown_list.drop_last() == items@.subrange(0, k as int));
                assert(grown_list.last() == items@[k as int]);
                if boxes_wf(boxes@, items@) {
                    assert(boxes@[items@[k as int] as int].wf());
                    assert forall|j: int| 0 <= j < k + 1 implies next.contains(
                        #[trigger] boxes@[items@[j] as int],
                    ) by {
                        if j < k {
                            lemma_contains_transitive(next, acc, boxes@[items@[j] as int]);
                        }
                    }
                }
            }
            acc = next;
            k += 1;
        }
        assert(items@.subrange(0, n as int) == items@);
        acc
    }

    /// Adds a leaf with the given primitives, and returns its place.
    fn push_leaf(&mut self, boxes: &Vec<Aabb>, items: &Vec<usize>, bounds: Aabb) -> (r: usize)
        requires
            old(self).wf(),
            forall|k: int| 0 <= k < items@.len() ==> #[trigger] items@[k] < old(self).prims,
            boxes@.len() == old(self).prims,
            boxes_hold(old(self).nodes@, old(self).order@, old(self).boxes@, boxes@),
            forall|k: int|
                0 <= k < items@.len() ==> bounds.contains(#[trigger] boxes@[items@[k] as int]),
        ensures
            final(self).wf(),
            final(self).prims == old(self).prims,
            final(self).unconditional == old(self).unconditional,
            is_prefix(old(self).nodes@, final(self).nodes@),
            is_prefix(old(self).order@, final(self).order@),
            r == final(self).nodes@.len() - 1,
            final(self).nodes@.len() == old(self).nodes@.len() + 1,
            final(self).nodes@[r as int] matches KdNode::Leaf { first, count } && first == old(
                self,
            ).order@.len() && count == items@.len(),
            final(self).order@ == old(self).order@ + items@,
            final(self).boxes@ == old(self).boxes@.push(bounds),
            forall|p: usize|
                under(final(self).nodes@, final(self).order@, r as int).contains(p)
                    <==> items@.contains(p),
            boxes_hold(final(self).nodes@, final(self).order@, final(self).boxes@, boxes@),
    {
        let first = self.order.len();
        let count = items.len();
        let ghost before = *self;
        let mut k: usize = 0;
        while k < count
            invariant
                count == items@.len(),
                0 <= k <= count,
                first == before.order@.len(),
                self.order@ == before.order@ + items@.subrange(0, k as int),
                self.nodes == before.nodes,
                self.boxes == before.boxes,
                self.unconditional == before.unconditional,
                self.prims == before.prims,
            decreases count - k,
        {
            self.order.push(items[k]);
            k += 1;
        }
        assert(items@.subrange(0, count as int) == items@);
        let at = self.nodes.len();
        self.nodes.push(KdNode::Leaf { first, count });
        self.boxes.push(bounds);
        proof {
            let nodes = self.nodes@;
            let order = self.order@;
            assert(is_prefix(before.nodes@, nodes));
            assert(is_prefix(before.order@, order));
            assert forall|p: usize| under(nodes, order, at as int).contains(p) <==> items@.contains(
                p,
            ) by {
                if under(nodes, order, at as int).contains(p) {
                    let j = choose|j: int| first <= j < first + count && #[trigger] order[j] == p;
                    assert(items@[j - first] == p);
                }
                if items@.contains(p) {
                    let j = choose|j: int| 0 <= j < items@.len() && items@[j] == p;
                    assert(order[first + j] == p);
                }
            }
            assert forall|n: int, p: usize|
                #![trigger under(nodes, order, n).contains(p)]
                0 <= n < nodes.len() && under(nodes, order, n).contains(p) implies p < boxes@.len()
                && self.boxes@[n].contains(boxes@[p as int]) by {
                if n < at {
                    lemma_under_frame(
                        before.nodes@,
                        before.order@,
                        nodes,
                        order,
                        before.prims as int,
                        n,
                    );
                    assert(self.boxes@[n] == before.boxes@[n]);
                } else {
                    let j = choose|j: int| 0 <= j < items@.len() && items@[j] == p;
                    assert(bounds.contains(boxes@[items@[j] as int]));
                }
            }
        }
        at
    }

    /// Adds an inner node over two nodes of the arena, and returns its place.
    fn push_split(
        &mut self,
        boxes: &Vec<Aabb>,
        axis: Axis,
        plane: i64,
        left: usize,
        right: usize,
        bounds: Aabb,
    ) -> (r: usize)
        requires
            old(self).wf(),
            left < old(self).nodes@.len(),
            right < old(self).nodes@.len(),
            boxes@.len() == old(self).prims,
            boxes_hold(old(self).nodes@, old(self).order@, old(self).boxes@, boxes@),
            forall|p: usize|
                under(old(self).nodes@, old(self).order@, left as int).contains(p) || under(
                    old(self).nodes@,
                    old(self).order@,
                    right as int,
                ).contains(p) ==> p < boxes@.len() && bounds.contains(#[trigger] boxes@[p as int]),
        ensures
            final(self).wf(),
            final(self).prims == old(self).prims,
            final(self).unconditional == old(self).unconditional,
            is_prefix(old(self).nodes@, final(self).nodes@),
            final(self).order@ == old(self).order@,
            r == final(self).nodes@.len() - 1,
            final(self).nodes@ == old(self).nodes@.push(KdNode::Split { axis, plane, left, right }),
            final(self).boxes@ == old(self).boxes@.push(bounds),
            forall|p: usize|
                under(final(self).nodes@, final(self).order@, r as int).contains(p) <==> (under(
                    old(self).nodes@,
                    old(self).order@,
                    left as int,
                ).contains(p) || under(old(self).nodes@, old(self).order@, right as int).contains(
                    p,
                )),
            boxes_hold(final(self).nodes@, final(self).order@, final(self).boxes@, boxes@),
    {
        let ghost before = *self;
        let at = self.nodes.len();
        self.nodes.push(KdNode::Split { axis, plane, left, right });
        self.boxes.push(bounds);
        proof {
            let nodes = self.nodes@;
            let order = self.order@;
            assert(is_prefix(before.nodes@, nodes));
            assert(is_prefix(before.order@, order));
            lemma_under_frame(before.nodes@, before.order@, nodes, order, before.prims as int, left as int);
            lemma_under_frame(before.nodes@, before.order@, nodes, order, before.prims as int, right as int);
            assert forall|n: int, p: usize|
                #![trigger under(nodes, order, n).contains(p)]
                0 <= n < nodes.len() && under(nodes, order, n).contains(p) implies p < boxes@.len()
                && self.boxes@[n].contains(boxes@[p as int]) by {
                if n < at {
                    lemma_under_frame(
                        before.nodes@,
                        before.order@,
                        nodes,
                        order,
                        before.prims as int,
                        n,
                    );
                    assert(self.boxes@[n] == before.boxes@[n]);
                }
            }
        }
        at
    }

    /// Splits `items` at `plane` along `axis`: to the left goes what starts
    /// at or before the plane, to the right what ends behind it, and what
    /// straddles the plane goes to both sides.
    fn partition(boxes: &Vec<Aabb>, items: &Vec<usize>, axis: Axis, plane: i64) -> (r: (
        Vec<usize>,
        Vec<usize>,
    ))
        requires
            forall|k: int| 0 <= k < items@.len() ==> #[trigger] items@[k] < boxes@.len(),
        ensures
            r.0@ == side(boxes@, items@, axis, plane, true),
            r.1@ == side(boxes@, items@, axis, plane, false),
            r.0@.len() <= items@.len(),
            r.1@.len() <= items@.len(),
            forall|j: int| 0 <= j < r.0@.len() ==> items@.contains(#[trigger] r.0@[j]),
            forall|j: int| 0 <= j < r.1@.len() ==> items@.contains(#[trigger] r.1@[j]),
            forall|k: int|
                0 <= k < items@.len() ==> r.0@.contains(#[trigger] items@[k]) || r.1@.contains(
                    items@[k],
                ),
    {
        let n = items.len();
        let mut left: Vec<usize> = Vec::new();
        let mut right: Vec<usize> = Vec::new();
        let mut k: usize = 0;
        assert(items@.subrange(0, 0).len() == 0);
        while k < n
            invariant
                n == items@.len(),
                0 <= k <= n,
                forall|j: int| 0 <= j < items@.len() ==> #[trigger] items@[j] < boxes@.len(),
                left@ == side(boxes@, items@.subrange(0, k as int), axis, plane, true),
                right@ == side(boxes@, items@.subrange(0, k as int), axis, plane, false),
                left@.len() <= k,
                right@.len() <= k,
                forall|j: int| 0 <= j < left@.len() ==> items@.contains(#[trigger] left@[j]),
                forall|j: int| 0 <= j < right@.len() ==> items@.contains(#[trigger] right@[j]),
                forall|j: int|
                    0 <= j < k ==> left@.contains(#[trigger] items@[j]) || right@.contains(
                        items@[j],
                    ),
            decreases n - k,
        {
            let item = items[k];
            let starts = axis.of(&boxes[item].lo).order_key();
            let ends = axis.of(&boxes[item].hi).order_key();
            let goes_left = starts <= plane;
            let ghost old_left = left@;
            let ghost old_right = right@;
            proof {
                let grown_list = items@.subrange(0, k + 1);
                assert(grown_list.drop_last() == items@.subrange(0, k as int));
                assert(grown_list.last() == item);
            }
            if goes_left {
                left.push(item);
            }
            if ends > plane || !goes_left {
                right.push(item);
            }
            proof {
                assert forall|j: int| 0 <= j < k + 1 implies left@.contains(#[trigger] items@[j])
                    || right@.contains(items@[j]) by {
                    if j < k {
                        if old_left.contains(items@[j]) {
                            let i = choose|i: int| 0 <= i < old_left.len() && old_left[i] == items@[j];
                            assert(left@[i] == items@[j]);
                        } else {
                            let i = choose|i: int|
                                0 <= i < old_right.len() && old_right[i] == items@[j];
                            assert(right@[i] == items@[j]);
                        }
                    } else {
                        if goes_left {
                            assert(left@[left@.len() - 1] == item);
                        } else {
                            assert(right@[right@.len() - 1] == item);
                        }
                    }
                }
                assert forall|j: int| 0 <= j < left@.len() implies items@.contains(
                    #[trigger] left@[j],
                ) by {
                    if j < old_left.len() {
                        assert(left@[j] == old_left[j]);
                    } else {
                        assert(items@[k as int] == item);
                    }
                }
                assert forall|j: int| 0 <= j < right@.len() implies items@.contains(
                    #[trigger] right@[j],
                ) by {
                    if j < old_right.len() {
                        assert(right@[j] == old_right[j]);
                    } else {
                        assert(items@[k as int] == item);
                    }
                }
            }
            k += 1;
        }
        assert(items@.subrange(0, n as int) == items@);
        (left, right)
    }

    /// The median of the centres of `items` along `axis`.
    fn plane_of(centres: &Vec<Vec3>, items: &Vec<usize>, axis: Axis) -> (r: i64)
        requires
            items@.len() >= 1,
            forall|k: int| 0 <= k < items@.len() ==> #[trigger] items@[k] < centres@.len(),
        ensures
            is_median(centre_keys(centres@, items@, axis), r),
    {
        let n = items.len();
        let mut keys: Vec<i64> = Vec::new();
        let mut k: usize = 0;
        while k < n
            invariant
                n == items@.len(),
                0 <= k <= n,
                forall|j: int| 0 <= j < items@.len() ==> #[trigger] items@[j] < centres@.len(),
                keys@.len() == k,
                forall|j: int|
                    0 <= j < k ==> #[trigger] keys@[j] == axis.of_spec(
                        centres@[items@[j] as int],
                    ).key() as i64,
            decreases n - k,
        {
            keys.push(axis.of(&centres[items[k]]).order_key());
            k += 1;
        }
        assert(keys@ =~= centre_keys(centres@, items@, axis));
        median_key(keys)
    }

    /// Builds the subtree over `items` and returns the place of its root.
    fn grow<E: Fn(Aabb) -> Vec3>(
        &mut self,
        boxes: &Vec<Aabb>,
        centres: &Vec<Vec3>,
        items: Vec<usize>,
        depth: usize,
        max_depth: usize,
        extent: &E,
    ) -> (r: usize)
        requires
            old(self).wf(),
            items@.len() >= 1,
            boxes@.len() == old(self).prims,
            centres@.len() == old(self).prims,
            forall|k: int| 0 <= k < items@.len() ==> #[trigger] items@[k] < old(self).prims,
            boxes_wf(boxes@, items@),
            boxes_hold(old(self).nodes@, old(self).order@, old(self).boxes@, boxes@),
            depth <= max_depth,
            forall|b: Aabb| call_requires(*extent, (b,)),
        ensures
            final(self).wf(),
            final(self).prims == old(self).prims,
            final(self).unconditional == old(self).unconditional,
            is_prefix(old(self).nodes@, final(self).nodes@),
            is_prefix(old(self).order@, final(self).order@),
            is_prefix(old(self).boxes@, final(self).boxes@),
            r == final(self).nodes@.len() - 1,
            forall|p: usize|
                under(final(self).nodes@, final(self).order@, r as int).contains(p)
                    <==> items@.contains(p),
            boxes_hold(final(self).nodes@, final(self).order@, final(self).boxes@, boxes@),
            height(final(self).nodes@, r as int) <= max_depth - depth,
            grown(
                final(self).nodes@,
                final(self).boxes@,
                final(self).order@,
                *extent,
                boxes@,
                centres@,
                r as int,
                items@,
                depth as int,
                max_depth as int,
            ),
        decreases max_depth - depth,
    {
        let ghost start = *self;
        let bounds = Self::bounds_of(boxes, &items);
        if depth >= max_depth || items.len() <= LEAF_SIZE {
            let at = self.push_leaf(boxes, &items, bounds);
            proof {
                let first = start.order@.len() as int;
                assert(self.order@.subrange(first, first + items@.len()) == items@);
                assert(is_prefix(start.boxes@, self.boxes@));
            }
            return at;
        }
        let measured = extent(bounds);
        let axis = longest_axis(&measured);
        let plane = Self::plane_of(centres, &items, axis);
        let (left, right) = Self::partition(boxes, &items, axis, plane);
        proof {
            lemma_sides(boxes@, items@, axis, plane);
            assert(chosen(*extent, centres@, items@, bounds, axis, plane)) by {
                assert(call_ensures(*extent, (bounds,), measured));
            }
        }
        if left.len() == items.len() || right.len() == items.len() {
            let at = self.push_leaf(boxes, &items, bounds);
            proof {
                let first = start.order@.len() as int;
                assert(self.order@.subrange(first, first + items@.len()) == items@);
                assert(is_prefix(start.boxes@, self.boxes@));
                assert(chosen(*extent, centres@, items@, self.boxes@[at as int], axis, plane)
                    && parts_nothing(boxes@, items@, axis, plane));
            }
            return at;
        }
        let ghost left_items = left@;
        let ghost right_items = right@;
        proof {
            assert forall|k: int| 0 <= k < left@.len() implies left@[k] < boxes@.len() && (
            #[trigger] boxes@[left@[k] as int]).wf() by {
                let j = choose|j: int| 0 <= j < items@.len() && items@[j] == left@[k];
                assert(boxes@[items@[j] as int].wf());
            }
            assert forall|k: int| 0 <= k < right@.len() implies right@[k] < boxes@.len() && (
            #[trigger] boxes@[right@[k] as int]).wf() by {
                let j = choose|j: int| 0 <= j < items@.len() && items@[j] == right@[k];
                assert(boxes@[items@[j] as int].wf());
            }
        }
        let l = self.grow(boxes, centres, left, depth + 1, max_depth, extent);
        let ghost middle = *self;
        let r = self.grow(boxes, centres, right, depth + 1, max_depth, extent);
        proof {
            lemma_under_frame(
                middle.nodes@,
                middle.order@,
                self.nodes@,
                self.order@,
                middle.prims as int,
                l as int,
            );
            lemma_height_frame(middle.nodes@, self.nodes@, l as int);
            lemma_grown_frame(
                middle.nodes@,
                middle.boxes@,
                middle.order@,
                self.nodes@,
                self.boxes@,
                self.order@,
                *extent,
                boxes@,
                centres@,
                l as int,
                left_items,
                depth + 1,
                max_depth as int,
            );
            assert forall|p: usize|
                under(self.nodes@, self.order@, l as int).contains(p) || under(
                    self.nodes@,
                    self.order@,
                    r as int,
                ).contains(p) implies p < boxes@.len() && bounds.contains(
                #[trigger] boxes@[p as int],
            ) by {
                assert(items@.contains(p)) by {
                    if under(self.nodes@, self.order@, l as int).contains(p) {
                        assert(under(middle.nodes@, middle.order@, l as int).contains(p));
                        assert(left_items.contains(p));
                        let j = choose|j: int| 0 <= j < left_items.len() && left_items[j] == p;
                        assert(items@.contains(left_items[j]));
                    } else {
                        assert(right_items.contains(p));
                        let j = choose|j: int| 0 <= j < right_items.len() && right_items[j] == p;
                        assert(items@.contains(right_items[j]));
                    }
                }
                let k = choose|k: int| 0 <= k < items@.len() && items@[k] == p;
                assert(bounds.contains(boxes@[items@[k] as int]));
            }
        }
        let ghost grown_state = *self;
        let at = self.push_split(boxes, axis, plane, l, r, bounds);
        proof {
            assert forall|p: usize|
                under(self.nodes@, self.order@, at as int).contains(p) <==> items@.contains(
                    p,
                ) by {
                if items@.contains(p) {
                    let k = choose|k: int| 0 <= k < items@.len() && items@[k] == p;
                    assert(left_items.contains(items@[k]) || right_items.contains(items@[k]));
                }
                if under(grown_state.nodes@, grown_state.order@, l as int).contains(p) {
                    assert(under(middle.nodes@, middle.order@, l as int).contains(p));
                    assert(left_items.contains(p));
                    let j = choose|j: int| 0 <= j < left_items.len() && left_items[j] == p;
                    assert(items@.contains(left_items[j]));
                }
                if under(grown_state.nodes@, grown_state.order@, r as int).contains(p) {
                    assert(right_items.contains(p));
                    let j = choose|j: int| 0 <= j < right_items.len() && right_items[j] == p;
                    assert(items@.contains(right_items[j]));
                }
                if left_items.contains(p) {
                    assert(under(middle.nodes@, middle.order@, l as int).contains(p));
                    assert(under(grown_state.nodes@, grown_state.order@, l as int).contains(p));
                }
                if right_items.contains(p) {
                    assert(under(grown_state.nodes@, grown_state.order@, r as int).contains(p));
                }
            }
            assert(is_prefix(start.nodes@, self.nodes@));
            assert(is_prefix(start.order@, self.order@));
            assert(is_prefix(start.boxes@, self.boxes@));
            assert(is_prefix(grown_state.boxes@, self.boxes@));
            assert(is_prefix(grown_state.order@, self.order@));
            lemma_height_frame(grown_state.nodes@, self.nodes@, l as int);
            lemma_height_frame(grown_state.nodes@, self.nodes@, r as int);
            lemma_grown_frame(
                grown_state.nodes@,
                grown_state.boxes@,
                grown_state.order@,
                self.nodes@,
                self.boxes@,
                self.order@,
                *extent,
                boxes@,
                centres@,
                l as int,
                left_items,
                depth + 1,
                max_depth as int,
            );
            lemma_grown_frame(
                grown_state.nodes@,
                grown_state.boxes@,
                grown_state.order@,
                self.nodes@,
                self.boxes@,
                self.order@,
                *extent,
                boxes@,
                centres@,
                r as int,
                right_items,
                depth + 1,
                max_depth as int,
            );
        }
        at
    }

    /// Whether the box of a primitive is a box.
    fn box_ok(b: &Aabb) -> (r: bool)
        ensures
            r == b.wf(),
    {
        b.lo.x.le(&b.hi.x) && b.lo.y.le(&b.hi.y) && b.lo.z.le(&b.hi.z)
    }

    /// Builds the tree of a frame.
    ///
    /// `boxes` and `centres` hold the bounding box and its centre for every
    /// primitive; `bounded` lists the primitives that have a box,
    /// `unconditional` those that have none. `extent` measures a box along
    /// the three axes. A primitive whose box is no box (a corner is no
    /// number, or a lower corner lies above the upper) is treated as having
    /// none.
    ///
    /// A node is split at the median of the centres along its longest axis,
    /// until `max_depth` splits lie above it, it holds no more than
    /// `LEAF_SIZE` primitives, or the split would not part them.
    pub fn build<E: Fn(Aabb) -> Vec3>(
        boxes: &Vec<Aabb>,
        centres: &Vec<Vec3>,
        bounded: &Vec<usize>,
        unconditional: &Vec<usize>,
        max_depth: usize,
        extent: E,
    ) -> (r: KdTree)
        requires
            centres@.len() == boxes@.len(),
            forall|k: int| 0 <= k < bounded@.len() ==> #[trigger] bounded@[k] < boxes@.len(),
            forall|k: int|
                0 <= k < unconditional@.len() ==> #[trigger] unconditional@[k] < boxes@.len(),
            forall|b: Aabb| call_requires(extent, (b,)),
        ensures
            r.wf(),
            r.prims == boxes@.len(),
            forall|p: usize|
                r.reachable(p) <==> (bounded@.contains(p) || unconditional@.contains(p)),
            forall|p: usize|
                r.indexed().contains(p) <==> (bounded@.contains(p) && boxes@[p as int].wf()),
            boxes_hold(r.nodes@, r.order@, r.boxes@, boxes@),
            height(r.nodes@, r.nodes@.len() - 1) <= max_depth,
            r.unconditional@ == unconditional@ + sorted_out(boxes@, bounded@, false),
            sorted_out(boxes@, bounded@, true).len() == 0 ==> r.nodes@.len() == 0,
            sorted_out(boxes@, bounded@, true).len() > 0 ==> grown(
                r.nodes@,
                r.boxes@,
                r.order@,
                extent,
                boxes@,
                centres@,
                r.nodes@.len() - 1,
                sorted_out(boxes@, bounded@, true),
                0,
                max_depth as int,
            ),
    {
        let mut beside: Vec<usize> = Vec::new();
        let mut k: usize = 0;
        let u = unconditional.len();
        while k < u
            invariant
                u == unconditional@.len(),
                0 <= k <= u,
                beside@ == unconditional@.subrange(0, k as int),
            decreases u - k,
        {
            beside.push(unconditional[k]);
            k += 1;
        }
        assert(unconditional@.subrange(0, u as int) == unconditional@);
        let mut items: Vec<usize> = Vec::new();
        let b = bounded.len();
        k = 0;
        assert(bounded@.subrange(0, 0).len() == 0);
        while k < b
            invariant
                b == bounded@.len(),
                0 <= k <= b,
                items@ == sorted_out(boxes@, bounded@.subrange(0, k as int), true),
                beside@ == unconditional@ + sorted_out(
                    boxes@,
                    bounded@.subrange(0, k as int),
                    false,
                ),
                forall|j: int| 0 <= j < bounded@.len() ==> #[trigger] bounded@[j] < boxes@.len(),
                forall|j: int|
                    0 <= j < unconditional@.len() ==> #[trigger] unconditional@[j] < boxes@.len(),
                forall|j: int| 0 <= j < items@.len() ==> #[trigger] items@[j] < boxes@.len(),
                forall|j: int| 0 <= j < beside@.len() ==> #[trigger] beside@[j] < boxes@.len(),
                boxes_wf(boxes@, items@),
                forall|p: usize|
                    #![trigger items@.contains(p)]
                    #![trigger bounded@.subrange(0, k as int).contains(p)]
                    items@.contains(p) <==> (bounded@.subrange(0, k as int).contains(p)
                        && boxes@[p as int].wf()),
                forall|p: usize|
                    #![trigger beside@.contains(p)]
                    #![trigger bounded@.subrange(0, k as int).contains(p)]
                    #![trigger unconditional@.contains(p)]
                    beside@.contains(p) <==> (unconditional@.contains(p) || (bounded@.subrange(
                        0,
                        k as int,
                    ).contains(p) && !boxes@[p as int].wf())),
            decreases b - k,
        {
            let p = bounded[k];
            let ghost old_items = items@;
            let ghost old_beside = beside@;
            let ok = Self::box_ok(&boxes[p]);
            if ok {
                items.push(p);
            } else {
                beside.push(p);
            }
            proof {
                let seen = bounded@.subrange(0, k as int);
                let grown = bounded@.subrange(0, k + 1);
                assert(grown == seen.push(p));
                assert(grown.drop_last() == seen);
                assert(grown.last() == p);
                lemma_push_contains(seen, p);
                if ok {
                    assert(items@ == old_items.push(p));
                    lemma_push_contains(old_items, p);
                } else {
                    assert(beside@ == old_beside.push(p));
                    lemma_push_contains(old_beside, p);
                }
                assert forall|j: int| 0 <= j < items@.len() implies items@[j] < boxes@.len() && (
                #[trigger] boxes@[items@[j] as int]).wf() by {
                    if j < old_items.len() {
                        assert(items@[j] == old_items[j]);
                    }
                }
            }
            k += 1;
        }
        assert(bounded@.subrange(0, b as int) == bounded@);
        let mut tree = KdTree {
            nodes: Vec::new(),
            boxes: Vec::new(),
            order: Vec::new(),
            unconditional: beside,
            prims: boxes.len(),
        };
        let ghost listed = items@;
        if items.len() > 0 {
            tree.grow(boxes, centres, items, 0, max_depth, &extent);
        }
        proof {
            assert forall|p: usize| tree.indexed().contains(p) <==> (bounded@.contains(p)
                && boxes@[p as int].wf()) by {
                assert(listed.contains(p) <==> (bounded@.contains(p) && boxes@[p as int].wf()));
                if listed.len() == 0 {
                    if listed.contains(p) {
                        let j = choose|j: int| 0 <= j < listed.len() && listed[j] == p;
                    }
                }
            }
            assert forall|p: usize| tree.reachable(p) <==> (bounded@.contains(p)
                || unconditional@.contains(p)) by {
                assert(tree.unconditional@.contains(p) <==> (unconditional@.contains(p) || (
                bounded@.contains(p) && !boxes@[p as int].wf())));
            }
        }
        tree
    }
}

} // verus!
