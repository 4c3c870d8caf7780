//! Bounding-volume hierarchy over primitives addressed by index. The nodes live
//! in an arena; a node only refers to nodes built before it, so the arena holds
//! no cycle. A node with a single primitive refers to it from both sides.
use vstd::prelude::*;
use vstd::seq_lib::*;
use crate::aabb::{BoundingBox, min_key, max_key};

verus! {

broadcast use vstd::seq_lib::group_to_multiset_ensures;

/// One side of a node: a primitive, or a node of the arena.
#[derive(Clone, Copy, Debug, PartialEq, Eq, Structural)]
pub enum BvhChild {
    Primitive(usize),
    Node(usize),
}

/// A node of the hierarchy, with the box that surrounds both of its sides and
/// the axis its primitives were ordered on.
#[derive(Clone, Copy, Debug)]
pub struct BvhNode {
    pub left: BvhChild,
    pub right: BvhChild,
    pub bounds: BoundingBox,
    pub axis: usize,
}

/// A hierarchy: the boxes of the primitives, the arena of nodes and its root.
pub struct Bvh {
    pub boxes: Vec<BoundingBox>,
    pub nodes: Vec<BvhNode>,
    pub root: usize,
}

/// Recursion measure of a side.
pub open spec fn rank(c: BvhChild) -> nat {
    match c {
        BvhChild::Primitive(_) => 0,
        BvhChild::Node(i) => i as nat + 1,
    }
}

/// The side `c` refers to a primitive, or to a node built before node `i`.
pub open spec fn below(c: BvhChild, i: usize) -> bool {
    match c {
        BvhChild::Primitive(_) => true,
        BvhChild::Node(j) => j < i,
    }
}

/// The primitives reachable from side `c`.
pub open spec fn leaves(nodes: Seq<BvhNode>, c: BvhChild) -> Set<usize>
    decreases rank(c),
{
    match c {
        BvhChild::Primitive(p) => set![p],
        BvhChild::Node(i) => {
            if i < nodes.len() && below(nodes[i as int].left, i) && below(nodes[i as int].right, i) {
                leaves(nodes, nodes[i as int].left).union(leaves(nodes, nodes[i as int].right))
            } else {
                Set::empty()
            }
        },
    }
}

/// The box of side `c`: a primitive's own box, or a node's cached box.
pub open spec fn child_box(nodes: Seq<BvhNode>, boxes: Seq<BoundingBox>, c: BvhChild) -> BoundingBox {
    match c {
        BvhChild::Primitive(p) => boxes[p as int],
        BvhChild::Node(i) => nodes[i as int].bounds,
    }
}

/// The key of primitive `p`'s lower corner on `axis`.
pub open spec fn min_on(boxes: Seq<BoundingBox>, p: usize, axis: usize) -> u64 {
    boxes[p as int].min[axis as int]
}

/// Side `c` refers to something that exists when node `i` is made.
pub open spec fn child_ok(c: BvhChild, i: usize, n_boxes: nat) -> bool {
    match c {
        BvhChild::Primitive(p) => p < n_boxes,
        BvhChild::Node(j) => j < i,
    }
}

/// The axis that follows `a` in the cycle x, y, z.
pub open spec fn next_axis(a: usize) -> usize {
    if a == 2 { 0 } else { (a + 1) as usize }
}

/// A side that is a node was split on the axis after `axis`.
pub open spec fn child_axis_ok(nodes: Seq<BvhNode>, c: BvhChild, axis: usize) -> bool {
    match c {
        BvhChild::Primitive(_) => true,
        BvhChild::Node(j) => nodes[j as int].axis == next_axis(axis),
    }
}

/// Node `i` is well formed: its sides exist, its box is the surrounding box of
/// its sides' boxes, and every primitive on its left starts no later on its
/// axis than every primitive on its right. Its two sides are the same only
/// when it holds a single primitive; otherwise they share no primitive and
/// the left holds half of its primitives, rounded down. A side that is a
/// node was split on the next axis.
pub open spec fn node_wf(nodes: Seq<BvhNode>, boxes: Seq<BoundingBox>, i: usize) -> bool {
    let n = nodes[i as int];
    let lb = child_box(nodes, boxes, n.left);
    let rb = child_box(nodes, boxes, n.right);
    &&& child_ok(n.left, i, boxes.len())
    &&& child_ok(n.right, i, boxes.len())
    &&& n.axis < 3
    &&& forall|a: int|
        0 <= a < 3 ==> #[trigger] n.bounds.min[a] == min_key(lb.min[a], rb.min[a])
            && n.bounds.max[a] == max_key(lb.max[a], rb.max[a])
    &&& forall|l: usize, r: usize|
        leaves(nodes, n.left).contains(l) && leaves(nodes, n.right).contains(r) ==> min_on(
            boxes,
            l,
            n.axis,
        ) <= min_on(boxes, r, n.axis)
    &&& n.left == n.right ==> n.left is Primitive
    &&& n.left != n.right ==> leaves(nodes, n.left).disjoint(leaves(nodes, n.right))
    &&& n.left != n.right ==> leaves(nodes, n.left).len() == (leaves(nodes, n.left).len() + leaves(
        nodes,
        n.right,
    ).len()) / 2
    &&& child_axis_ok(nodes, n.left, n.axis)
    &&& child_axis_ok(nodes, n.right, n.axis)
}

/// Every node of the arena is well formed.
pub open spec fn arena_wf(nodes: Seq<BvhNode>, boxes: Seq<BoundingBox>) -> bool {
    forall|i: usize| i < nodes.len() ==> #[trigger] node_wf(nodes, boxes, i)
}

/// `s` is ordered by the lower corners of its primitives' boxes on `axis`.
pub open spec fn sorted_on(boxes: Seq<BoundingBox>, s: Seq<usize>, axis: usize) -> bool {
    forall|i: int, j: int|
        0 <= i < j < s.len() ==> min_on(boxes, #[trigger] s[i], axis) <= min_on(
            boxes,
            #[trigger] s[j],
            axis,
        )
}

/// Extending the arena leaves what an existing side reaches unchanged.
proof fn lemma_leaves_stable(old_nodes: Seq<BvhNode>, new_nodes: Seq<BvhNode>, c: BvhChild)
    requires
        old_nodes.len() <= new_nodes.len(),
        forall|j: int| 0 <= j < old_nodes.len() ==> new_nodes[j] == old_nodes[j],
        rank(c) <= old_nodes.len(),
    ensures
        leaves(new_nodes, c) == leaves(old_nodes, c),
    decreases rank(c),
{
    match c {
        BvhChild::Primitive(_) => {},
        BvhChild::Node(i) => {
            let n = old_nodes[i as int];
            if below(n.left, i) && below(n.right, i) {
                lemma_leaves_stable(old_nodes, new_nodes, n.left);
                lemma_leaves_stable(old_nodes, new_nodes, n.right);
            }
        },
    }
}

/// Extending the arena keeps every existing node well formed.
proof fn lemma_arena_stable(old_nodes: Seq<BvhNode>, new_nodes: Seq<BvhNode>, boxes: Seq<BoundingBox>)
    requires
        arena_wf(old_nodes, boxes),
        old_nodes.len() <= new_nodes.len(),
        forall|j: int| 0 <= j < old_nodes.len() ==> new_nodes[j] == old_nodes[j],
    ensures
        forall|i: usize| i < old_nodes.len() ==> #[trigger] node_wf(new_nodes, boxes, i),
{
    assert forall|i: usize| i < old_nodes.len() implies #[trigger] node_wf(new_nodes, boxes, i) by {
        assert(node_wf(old_nodes, boxes, i));
        let n = old_nodes[i as int];
        lemma_leaves_stable(old_nodes, new_nodes, n.left);
        lemma_leaves_stable(old_nodes, new_nodes, n.right);
        assert(new_nodes[i as int] == n);
        if let BvhChild::Node(j) = n.left {
            assert(new_nodes[j as int] == old_nodes[j as int]);
        }
        if let BvhChild::Node(j) = n.right {
            assert(new_nodes[j as int] == old_nodes[j as int]);
        }
        assert forall|l: usize, r: usize|
            leaves(new_nodes, n.left).contains(l) && leaves(new_nodes, n.right).contains(r)
                implies min_on(boxes, l, n.axis) <= min_on(boxes, r, n.axis) by {
            assert(leaves(old_nodes, n.left).contains(l));
        }
        let lb = child_box(new_nodes, boxes, n.left);
        let rb = child_box(new_nodes, boxes, n.right);
        assert forall|a: int|
            0 <= a < 3 implies #[trigger] n.bounds.min[a] == min_key(lb.min[a], rb.min[a])
                && n.bounds.max[a] == max_key(lb.max[a], rb.max[a]) by {
            let olb = child_box(old_nodes, boxes, n.left);
            assert(olb == lb);
            assert(n.bounds.min[a] == min_key(olb.min[a], child_box(old_nodes, boxes, n.right).min[a]));
        }
    }
}

/// The primitives of `items` in order of the lower corners of their boxes on
/// `axis`.
pub fn sort_on_axis(boxes: &Vec<BoundingBox>, items: &Vec<usize>, axis: usize) -> (r: Vec<usize>)
    requires
        axis < 3,
        forall|k: int| 0 <= k < items.len() ==> #[trigger] items[k] < boxes.len(),
    ensures
        r@.to_multiset() == items@.to_multiset(),
        r.len() == items.len(),
        sorted_on(boxes@, r@, axis),
        forall|k: int| 0 <= k < r.len() ==> #[trigger] r[k] < boxes.len(),
{
    let mut out: Vec<usize> = Vec::new();
    let mut k: usize = 0;
    while k < items.len()
        invariant
            axis < 3,
            k <= items.len(),
            forall|m: int| 0 <= m < items.len() ==> #[trigger] items[m] < boxes.len(),
            out@.to_multiset() == items@.subrange(0, k as int).to_multiset(),
            out.len() == k,
            sorted_on(boxes@, out@, axis),
            forall|m: int| 0 <= m < out.len() ==> #[trigger] out[m] < boxes.len(),
        decreases items.len() - k,
    {
        let x = items[k];
        let key = boxes[x].min[axis];
        let mut pos: usize = 0;
        while pos < out.len() && boxes[out[pos]].min[axis] <= key
            invariant
                axis < 3,
                x < boxes.len(),
                key == min_on(boxes@, x, axis),
                pos <= out.len(),
                forall|m: int| 0 <= m < out.len() ==> #[trigger] out[m] < boxes.len(),
                forall|m: int| 0 <= m < pos ==> min_on(boxes@, #[trigger] out[m], axis) <= key,
            decreases out.len() - pos,
        {
            pos += 1;
        }
        proof {
            assert(pos < out.len() ==> key < min_on(boxes@, out[pos as int], axis));
            assert forall|m: int| pos <= m < out.len() implies key < min_on(
                boxes@,
                #[trigger] out[m],
                axis,
            ) by {
                if m > pos {
                    assert(min_on(boxes@, out[pos as int], axis) <= min_on(boxes@, out[m], axis));
                }
            }
            to_multiset_insert(out@, pos as int, x);
            assert(items@.subrange(0, k + 1) == items@.subrange(0, k as int).push(x));
        }
        let ghost prev = out@;
        out.insert(pos, x);
        proof {
            assert(out@ == prev.insert(pos as int, x));
            assert forall|i: int, j: int| 0 <= i < j < out.len() implies min_on(
                boxes@,
                #[trigger] out@[i],
                axis,
            ) <= min_on(boxes@, #[trigger] out@[j], axis) by {
                if j < pos {
                } else if j == pos {
                } else if i < pos {
                    assert(min_on(boxes@, prev[i], axis) <= key);
                } else if i == pos {
                    assert(key < min_on(boxes@, prev[j - 1], axis));
                } else {
                }
            }
        }
        k += 1;
    }
    assert(items@.subrange(0, items.len() as int) == items@);
    out
}

} // verus!

verus! {

/// The box of side `c`, read from the arena and the primitives' boxes.
fn box_of(nodes: &Vec<BvhNode>, boxes: &Vec<BoundingBox>, c: BvhChild) -> (r: BoundingBox)
    requires
        match c {
            BvhChild::Primitive(p) => p < boxes.len(),
            BvhChild::Node(i) => i < nodes.len(),
        },
    ensures
        r == child_box(nodes@, boxes@, c),
{
    match c {
        BvhChild::Primitive(p) => boxes[p],
        BvhChild::Node(i) => nodes[i].bounds,
    }
}

impl BvhNode {
    /// Builds the hierarchy over the distinct primitives `items` into the
    /// arena `nodes` and returns the index of its root, the last node added. One primitive
    /// gives a node with that primitive on both sides; two give a node with the
    /// one whose box starts lower on `axis` on the left;
    /// more are ordered on `axis`, split at the middle and built recursively on
    /// the next axis, so the axis cycles with depth.
    pub fn new(nodes: &mut Vec<BvhNode>, boxes: &Vec<BoundingBox>, items: Vec<usize>, axis: usize) -> (id: usize)
        requires
            items.len() >= 1,
            axis < 3,
            forall|k: int| 0 <= k < items.len() ==> #[trigger] items[k] < boxes.len(),
            items@.no_duplicates(),
            arena_wf(old(nodes)@, boxes@),
        ensures
            final(nodes).len() > old(nodes).len(),
            id == final(nodes).len() - 1,
            final(nodes)[id as int].axis == axis,
            leaves(final(nodes)@, BvhChild::Node(id)).len() == items.len(),
            forall|j: int| 0 <= j < old(nodes).len() ==> final(nodes)[j] == old(nodes)[j],
            arena_wf(final(nodes)@, boxes@),
            leaves(final(nodes)@, BvhChild::Node(id)) == items@.to_set(),
        decreases items.len(),
    {
        let ghost start = nodes@;
        let size = items.len();
        let left: BvhChild;
        let right: BvhChild;
        if size == 1 {
            left = BvhChild::Primitive(items[0]);
            right = BvhChild::Primitive(items[0]);
            proof {
                assert(items@.to_set() =~= set![items[0]]);
                items@.unique_seq_to_set();
            }
        } else if size == 2 {
            let a = items[0];
            let b = items[1];
            if boxes[a].min[axis] < boxes[b].min[axis] {
                left = BvhChild::Primitive(a);
                right = BvhChild::Primitive(b);
            } else {
                left = BvhChild::Primitive(b);
                right = BvhChild::Primitive(a);
            }
            proof {
                assert(items@.to_set() =~= set![a].union(set![b])) by {
                    assert(items@ == seq![a, b]);
                }
                assert(a != b);
                items@.unique_seq_to_set();
                assert(set![a].disjoint(set![b]));
                assert(set![a].len() == 1 && set![b].len() == 1);
            }
        } else {
            let mut lo = sort_on_axis(boxes, &items, axis);
            let ghost sorted = lo@;
            let mid = size / 2;
            let hi = lo.split_off(mid);
            let next: usize = if axis == 2 { 0 } else { axis + 1 };
            proof {
                items@.lemma_multiset_has_no_duplicates();
                sorted.lemma_multiset_has_no_duplicates_conv();
                assert(lo@ == sorted.subrange(0, mid as int));
                assert(hi@ == sorted.subrange(mid as int, size as int));
                assert forall|k: int| 0 <= k < lo.len() implies #[trigger] lo[k] < boxes.len() by {
                    assert(lo[k] == sorted[k]);
                }
                assert forall|k: int| 0 <= k < hi.len() implies #[trigger] hi[k] < boxes.len() by {
                    assert(hi[k] == sorted[k + mid]);
                }
            }
            let l = BvhNode::new(nodes, boxes, lo, next);
            let ghost mid_nodes = nodes@;
            let r = BvhNode::new(nodes, boxes, hi, next);
            proof {
                lemma_leaves_stable(mid_nodes, nodes@, BvhChild::Node(l));
                assert forall|x: usize| sorted.contains(x) <==> items@.contains(x) by {
                    assert(sorted.to_multiset().count(x) == items@.to_multiset().count(x));
                    to_multiset_contains(sorted, x);
                    to_multiset_contains(items@, x);
                }
                let slo = sorted.subrange(0, mid as int);
                let shi = sorted.subrange(mid as int, size as int);
                assert forall|x: usize| sorted.contains(x) implies slo.contains(x) || shi.contains(x) by {
                    let k = choose|k: int| 0 <= k < sorted.len() && sorted[k] == x;
                    if k < mid {
                        assert(slo[k] == x);
                    } else {
                        assert(shi[k - mid] == x);
                    }
                }
                assert forall|x: usize| slo.contains(x) || shi.contains(x) implies sorted.contains(x) by {
                    if slo.contains(x) {
                        let k = choose|k: int| 0 <= k < slo.len() && slo[k] == x;
                        assert(sorted[k] == x);
                    } else {
                        let k = choose|k: int| 0 <= k < shi.len() && shi[k] == x;
                        assert(sorted[k + mid] == x);
                    }
                }
                assert(items@.to_set() =~= slo.to_set().union(shi.to_set()));
                assert(slo.to_set().disjoint(shi.to_set())) by {
                    assert forall|x: usize| slo.contains(x) implies !shi.contains(x) by {
                        let k1 = choose|k: int| 0 <= k < slo.len() && slo[k] == x;
                        if shi.contains(x) {
                            let k2 = choose|k: int| 0 <= k < shi.len() && shi[k] == x;
                            assert(sorted[k1] == sorted[k2 + mid]);
                        }
                    }
                }
                slo.unique_seq_to_set();
                shi.unique_seq_to_set();
                items@.unique_seq_to_set();
                assert(l < r);
            }
            left = BvhChild::Node(l);
            right = BvhChild::Node(r);
        }
        let lb = box_of(nodes, boxes, left);
        let rb = box_of(nodes, boxes, right);
        let bounds = BoundingBox::surrounding_box(&lb, &rb);
        let id = nodes.len();
        let ghost before_push = nodes@;
        nodes.push(BvhNode { left, right, bounds, axis });
        proof {
            lemma_arena_stable(before_push, nodes@, boxes@);
            lemma_leaves_stable(before_push, nodes@, left);
            lemma_leaves_stable(before_push, nodes@, right);
            assert(nodes@[id as int].left == left);
            if let BvhChild::Node(j) = left {
                assert(nodes@[j as int] == before_push[j as int]);
            }
            if let BvhChild::Node(j) = right {
                assert(nodes@[j as int] == before_push[j as int]);
            }
            assert(node_wf(nodes@, boxes@, id));
            assert(arena_wf(nodes@, boxes@));
            assert(leaves(nodes@, BvhChild::Node(id)) == items@.to_set());
            items@.unique_seq_to_set();
        }
        id
    }
}

} // verus!

verus! {

/// The nearer of two optional hits, by their time keys; the left one on a tie.
pub open spec fn nearer<R>(a: Option<(u64, R)>, b: Option<(u64, R)>) -> Option<(u64, R)> {
    match (a, b) {
        (None, _) => b,
        (Some(_), None) => a,
        (Some(x), Some(y)) => if y.0 < x.0 { b } else { a },
    }
}

/// The nearer of two optional hits, by their time keys; the left one on a tie.
pub fn closer<R>(a: Option<(u64, R)>, b: Option<(u64, R)>) -> (r: Option<(u64, R)>)
    ensures
        r == nearer(a, b),
{
    match (a, b) {
        (None, b) => b,
        (Some(x), None) => Some(x),
        (Some(x), Some(y)) => if y.0 < x.0 { Some(y) } else { Some(x) },
    }
}

/// `r` is a possible answer of a query from side `c`. A side whose box
/// `box_hit` may reject answers nothing and is not looked into. A primitive
/// whose box it may accept answers what `probe` may return for it; a node
/// whose box it may accept answers the nearer of possible answers of its two
/// sides.
pub open spec fn hit_outcome<R, B: Fn(BvhChild) -> bool, P: Fn(usize) -> Option<(u64, R)>>(
    nodes: Seq<BvhNode>,
    box_hit: B,
    probe: P,
    c: BvhChild,
    r: Option<(u64, R)>,
) -> bool
    decreases rank(c),
{
    exists|b: bool|
        #![trigger box_hit.ensures((c,), b)]
        box_hit.ensures((c,), b) && if !b {
            r is None
        } else {
            match c {
                BvhChild::Primitive(p) => probe.ensures((p,), r),
                BvhChild::Node(i) => {
                    if i < nodes.len() && below(nodes[i as int].left, i) && below(nodes[i as int].right, i) {
                        exists|x: Option<(u64, R)>, y: Option<(u64, R)>|
                            hit_outcome(nodes, box_hit, probe, nodes[i as int].left, x)
                                && hit_outcome(nodes, box_hit, probe, nodes[i as int].right, y)
                                && r == nearer(x, y)
                    } else {
                        false
                    }
                },
            }
        }
}

impl Bvh {
    /// The arena is well formed and the root is one of its nodes.
    pub open spec fn wf(&self) -> bool {
        &&& arena_wf(self.nodes@, self.boxes@)
        &&& self.root < self.nodes.len()
    }

    /// The hierarchy over all the primitives whose boxes are `boxes`,
    /// primitive `p` having box `boxes[p]`; the first split is on the x axis.
    pub fn new(boxes: Vec<BoundingBox>) -> (r: Bvh)
        requires
            boxes.len() >= 1,
        ensures
            r.wf(),
            r.boxes@ == boxes@,
            leaves(r.nodes@, BvhChild::Node(r.root)) == Set::new(|p: usize| p < boxes.len()),
            acyclic(r.nodes@),
    {
        let mut items: Vec<usize> = Vec::new();
        let mut p: usize = 0;
        while p < boxes.len()
            invariant
                p <= boxes.len(),
                items.len() == p,
                forall|k: int| 0 <= k < p ==> #[trigger] items[k] == k,
            decreases boxes.len() - p,
        {
            items.push(p);
            p += 1;
        }
        let mut nodes: Vec<BvhNode> = Vec::new();
        let root = BvhNode::new(&mut nodes, &boxes, items, 0);
        proof {
            assert forall|q: usize| items@.contains(q) <==> q < boxes.len() by {
                if q < boxes.len() {
                    assert(items[q as int] == q);
                }
            }
            assert(items@.to_set() =~= Set::new(|q: usize| q < boxes.len()));
            assert forall|i: usize| i < nodes.len() implies below(#[trigger] nodes@[i as int].left, i)
                && below(nodes@[i as int].right, i) by {
                assert(node_wf(nodes@, boxes@, i));
            }
        }
        Bvh { boxes, nodes, root }
    }

    /// The nearest hit of a query, with its time key. `box_hit(c)` tests the
    /// query against the box of side `c` (a node's cached box or a
    /// primitive's own box), `probe(p)` against primitive `p`. A side whose
    /// box is missed is not looked into; otherwise a node's two sides are
    /// queried over the same interval and the nearer hit kept, the left one
    /// when the two times are equal.
    pub fn hit<R, B: Fn(BvhChild) -> bool, P: Fn(usize) -> Option<(u64, R)>>(
        &self,
        box_hit: &B,
        probe: &P,
    ) -> (r: Option<(u64, R)>)
        requires
            self.wf(),
            forall|c: BvhChild| #[trigger] box_hit.requires((c,)),
            forall|p: usize| p < self.boxes.len() ==> #[trigger] probe.requires((p,)),
        ensures
            hit_outcome(self.nodes@, *box_hit, *probe, BvhChild::Node(self.root), r),
    {
        self.hit_from(box_hit, probe, BvhChild::Node(self.root))
    }

    fn hit_from<R, B: Fn(BvhChild) -> bool, P: Fn(usize) -> Option<(u64, R)>>(
        &self,
        box_hit: &B,
        probe: &P,
        c: BvhChild,
    ) -> (r: Option<(u64, R)>)
        requires
            self.wf(),
            forall|c: BvhChild| #[trigger] box_hit.requires((c,)),
            forall|p: usize| p < self.boxes.len() ==> #[trigger] probe.requires((p,)),
            match c {
                BvhChild::Primitive(p) => p < self.boxes.len(),
                BvhChild::Node(i) => i < self.nodes.len(),
            },
        ensures
            hit_outcome(self.nodes@, *box_hit, *probe, c, r),
        decreases rank(c),
    {
        if !box_hit(c) {
            return None;
        }
        match c {
            BvhChild::Primitive(p) => probe(p),
            BvhChild::Node(i) => {
                let node = self.nodes[i];
                proof {
                    assert(node_wf(self.nodes@, self.boxes@, i));
                }
                let x = self.hit_from(box_hit, probe, node.left);
                let y = self.hit_from(box_hit, probe, node.right);
                closer(x, y)
            },
        }
    }
}

} // verus!

verus! {

/// A node whose box and whose two primitives' boxes are hit answers the hit
/// with the smaller time key, the left one when the keys are equal, and a
/// primitive's hit when only that primitive reports one.
pub proof fn lemma_two_primitive_node<R, B: Fn(BvhChild) -> bool, P: Fn(usize) -> Option<(u64, R)>>(
    nodes: Seq<BvhNode>,
    box_hit: B,
    probe: P,
    i: usize,
    pl: usize,
    pr: usize,
    hl: Option<(u64, R)>,
    hr: Option<(u64, R)>,
    r: Option<(u64, R)>,
)
    requires
        i < nodes.len(),
        nodes[i as int].left == BvhChild::Primitive(pl),
        nodes[i as int].right == BvhChild::Primitive(pr),
        forall|v: Option<(u64, R)>| #[trigger] probe.ensures((pl,), v) ==> v == hl,
        forall|v: Option<(u64, R)>| #[trigger] probe.ensures((pr,), v) ==> v == hr,
        forall|c: BvhChild, v: bool| #[trigger] box_hit.ensures((c,), v) ==> v,
        hit_outcome(nodes, box_hit, probe, BvhChild::Node(i), r),
    ensures
        r == nearer(hl, hr),
        hl is None ==> r == hr,
        hr is None ==> r == hl,
        hl is Some && hr is Some ==> (if hr.unwrap().0 < hl.unwrap().0 {
            r == hr
        } else {
            r == hl
        }),
{
    let n = nodes[i as int];
    let (x, y) = choose|x: Option<(u64, R)>, y: Option<(u64, R)>|
        hit_outcome(nodes, box_hit, probe, n.left, x) && hit_outcome(nodes, box_hit, probe, n.right, y)
            && r == nearer(x, y);
    assert(x == hl);
    assert(y == hr);
}

/// Below a node whose box is hit and whose sides are two primitives, when the
/// left primitive's box is missed and the right one's is hit, the answer is
/// one that the right primitive reports: the left primitive is never probed
/// and its geometry plays no part.
pub proof fn lemma_missed_side_not_probed<R, B: Fn(BvhChild) -> bool, P: Fn(usize) -> Option<(u64, R)>>(
    nodes: Seq<BvhNode>,
    box_hit: B,
    probe: P,
    i: usize,
    pl: usize,
    pr: usize,
    r: Option<(u64, R)>,
)
    requires
        i < nodes.len(),
        nodes[i as int].left == BvhChild::Primitive(pl),
        nodes[i as int].right == BvhChild::Primitive(pr),
        forall|v: bool| #[trigger] box_hit.ensures((BvhChild::Node(i),), v) ==> v,
        forall|v: bool| #[trigger] box_hit.ensures((BvhChild::Primitive(pl),), v) ==> !v,
        forall|v: bool| #[trigger] box_hit.ensures((BvhChild::Primitive(pr),), v) ==> v,
        hit_outcome(nodes, box_hit, probe, BvhChild::Node(i), r),
    ensures
        r is None || probe.ensures((pr,), r),
{
    let n = nodes[i as int];
    let (x, y) = choose|x: Option<(u64, R)>, y: Option<(u64, R)>|
        hit_outcome(nodes, box_hit, probe, n.left, x) && hit_outcome(nodes, box_hit, probe, n.right, y)
            && r == nearer(x, y);
    assert(x is None);
    assert(r == y);
}

} // verus!

verus! {

/// `r` is a possible answer of a query over the primitives `i..n` of a list,
/// given the current bound `tmax` and the best hit so far: each primitive in
/// turn is probed below the bound, and a hit it reports becomes the best and
/// lowers the bound to its time.
pub open spec fn list_outcome<R, P: Fn(usize, u64) -> Option<(u64, R)>>(
    probe: P,
    i: int,
    n: int,
    tmax: u64,
    best: Option<(u64, R)>,
    r: Option<(u64, R)>,
) -> bool
    decreases n - i,
{
    if i >= n {
        r == best
    } else {
        exists|o: Option<(u64, R)>|
            #![trigger probe.ensures((i as usize, tmax), o)]
            probe.ensures((i as usize, tmax), o) && match o {
                Some(h) => list_outcome(probe, i + 1, n, h.0, Some(h), r),
                None => list_outcome(probe, i + 1, n, tmax, best, r),
            }
    }
}

/// The hit of a list of `count` primitives: `probe(p, tmax)` queries
/// primitive `p` with upper bound key `tmax`, which every hit lowers to its
/// own time, so that the last hit reported is the nearest.
pub fn nearest_in_list<R, P: Fn(usize, u64) -> Option<(u64, R)>>(count: usize, tmax: u64, probe: &P) -> (r: Option<
    (u64, R),
>)
    requires
        forall|p: usize, t: u64| p < count ==> #[trigger] probe.requires((p, t)),
    ensures
        list_outcome(*probe, 0, count as int, tmax, None, r),
{
    let mut bound = tmax;
    let mut result: Option<(u64, R)> = None;
    let mut i: usize = 0;
    while i < count
        invariant
            i <= count,
            forall|p: usize, t: u64| p < count ==> #[trigger] probe.requires((p, t)),
            forall|x: Option<(u64, R)>|
                #[trigger] list_outcome(*probe, i as int, count as int, bound, result, x) ==> list_outcome(
                    *probe,
                    0,
                    count as int,
                    tmax,
                    None,
                    x,
                ),
        decreases count - i,
    {
        let o = probe(i, bound);
        let ghost prev_bound = bound;
        let ghost prev_result = result;
        match o {
            Some(h) => {
                bound = h.0;
                result = Some(h);
            },
            None => {},
        }
        proof {
            assert forall|x: Option<(u64, R)>|
                #[trigger] list_outcome(*probe, i + 1, count as int, bound, result, x) implies list_outcome(
                *probe,
                0,
                count as int,
                tmax,
                None,
                x,
            ) by {
                assert(probe.ensures((i, prev_bound), o));
                assert(list_outcome(*probe, i as int, count as int, prev_bound, prev_result, x));
            }
        }
        i += 1;
    }
    assert(list_outcome(*probe, i as int, count as int, bound, result, result));
    result
}

} // verus!

verus! {

/// Every node of the arena refers only to nodes built before it.
pub open spec fn acyclic(nodes: Seq<BvhNode>) -> bool {
    forall|i: usize|
        i < nodes.len() ==> below(#[trigger] nodes[i as int].left, i) && below(nodes[i as int].right, i)
}

/// `r` is the nearest of the hits that `hits` gives the primitives of `s`:
/// nothing when none of them is hit, else one of their hits whose time key
/// is no larger than any other's.
pub open spec fn nearest_of<R>(s: Set<usize>, hits: spec_fn(usize) -> Option<(u64, R)>, r: Option<(u64, R)>) -> bool {
    match r {
        None => forall|p: usize| s.contains(p) ==> #[trigger] hits(p) is None,
        Some(h) => (exists|p: usize| s.contains(p) && #[trigger] hits(p) == r) && forall|p: usize|
            s.contains(p) && #[trigger] hits(p) is Some ==> h.0 <= hits(p).unwrap().0,
    }
}

/// The hierarchy answers the nearest hit over all the primitives below the
/// queried side, provided the tests are deterministic (`boxes` and `hits`
/// give their results) and the box tests are conservative: no primitive below
/// a side whose box is missed reports a hit.
pub proof fn lemma_hit_is_nearest<R, B: Fn(BvhChild) -> bool, P: Fn(usize) -> Option<(u64, R)>>(
    nodes: Seq<BvhNode>,
    box_hit: B,
    probe: P,
    boxes: spec_fn(BvhChild) -> bool,
    hits: spec_fn(usize) -> Option<(u64, R)>,
    c: BvhChild,
    r: Option<(u64, R)>,
)
    requires
        acyclic(nodes),
        forall|d: BvhChild, v: bool| #[trigger] box_hit.ensures((d,), v) ==> v == boxes(d),
        forall|p: usize, v: Option<(u64, R)>| #[trigger] probe.ensures((p,), v) ==> v == hits(p),
        forall|d: BvhChild, p: usize| !boxes(d) && #[trigger] leaves(nodes, d).contains(p) ==> hits(p) is None,
        hit_outcome(nodes, box_hit, probe, c, r),
    ensures
        nearest_of(leaves(nodes, c), hits, r),
    decreases rank(c),
{
    let b = choose|b: bool| box_hit.ensures((c,), b);
    if !b {
        assert forall|p: usize| leaves(nodes, c).contains(p) implies #[trigger] hits(p) is None by {}
    } else {
        match c {
            BvhChild::Primitive(p) => {
                assert(leaves(nodes, c).contains(p));
            },
            BvhChild::Node(i) => {
                let n = nodes[i as int];
                assert(below(n.left, i) && below(n.right, i));
                let (x, y) = choose|x: Option<(u64, R)>, y: Option<(u64, R)>|
                    hit_outcome(nodes, box_hit, probe, n.left, x) && hit_outcome(nodes, box_hit, probe, n.right, y)
                        && r == nearer(x, y);
                lemma_hit_is_nearest(nodes, box_hit, probe, boxes, hits, n.left, x);
                lemma_hit_is_nearest(nodes, box_hit, probe, boxes, hits, n.right, y);
                let sl = leaves(nodes, n.left);
                let sr = leaves(nodes, n.right);
                assert(leaves(nodes, c) == sl.union(sr));
                match r {
                    None => {},
                    Some(h) => {
                        if r == x {
                            let p = choose|p: usize| sl.contains(p) && #[trigger] hits(p) == x;
                            assert(leaves(nodes, c).contains(p));
                        } else {
                            let p = choose|p: usize| sr.contains(p) && #[trigger] hits(p) == y;
                            assert(leaves(nodes, c).contains(p));
                        }
                    },
                }
            },
        }
    }
}

} // verus!

verus! {

/// What probing primitive `p` below bound `t` gives when `hits(p)` is its
/// nearest hit: that hit when it lies below the bound, else nothing.
pub open spec fn below_bound<R>(hits: spec_fn(usize) -> Option<(u64, R)>, p: usize, t: u64) -> Option<(u64, R)> {
    if hits(p) is Some && hits(p).unwrap().0 < t {
        hits(p)
    } else {
        None
    }
}

/// Primitive `p` has a hit below bound `t`.
pub open spec fn hit_below<R>(hits: spec_fn(usize) -> Option<(u64, R)>, p: usize, t: u64) -> bool {
    hits(p) is Some && hits(p).unwrap().0 < t
}

proof fn lemma_list_nearest_from<R, P: Fn(usize, u64) -> Option<(u64, R)>>(
    probe: P,
    hits: spec_fn(usize) -> Option<(u64, R)>,
    i: int,
    n: int,
    bound: u64,
    best: Option<(u64, R)>,
    r: Option<(u64, R)>,
)
    requires
        0 <= i,
        n <= usize::MAX + 1,
        forall|p: usize, t: u64, v: Option<(u64, R)>| #[trigger] probe.ensures((p, t), v) ==> v == below_bound(hits, p, t),
        list_outcome(probe, i, n, bound, best, r),
    ensures
        r is Some ==> forall|p: usize| i <= p < n && #[trigger] hit_below(hits, p, bound) ==> r.unwrap().0 <= hits(p).unwrap().0,
        r == best || exists|p: usize| i <= p < n && #[trigger] hits(p) == r && hit_below(hits, p, bound),
        (exists|p: usize| i <= p < n && #[trigger] hit_below(hits, p, bound)) ==> r is Some,
        best is Some ==> r is Some,
    decreases n - i,
{
    if i < n {
        let o = choose|o: Option<(u64, R)>| #[trigger] probe.ensures((i as usize, bound), o) && match o {
            Some(h) => list_outcome(probe, i + 1, n, h.0, Some(h), r),
            None => list_outcome(probe, i + 1, n, bound, best, r),
        };
        let q = i as usize;
        assert(o == below_bound(hits, q, bound));
        match o {
            Some(h) => {
                lemma_list_nearest_from(probe, hits, i + 1, n, h.0, Some(h), r);
                assert(hits(q) == o && hit_below(hits, q, bound));
                if r is Some {
                    assert forall|p: usize| i <= p < n && #[trigger] hit_below(hits, p, bound) implies r.unwrap().0
                        <= hits(p).unwrap().0 by {
                        if p > i && hits(p).unwrap().0 < h.0 {
                            assert(hit_below(hits, p, h.0));
                        }
                    }
                }
                if r != Some(h) {
                    let p = choose|p: usize| i + 1 <= p < n && #[trigger] hits(p) == r && hit_below(hits, p, h.0);
                    assert(hit_below(hits, p, bound));
                }
            },
            None => {
                lemma_list_nearest_from(probe, hits, i + 1, n, bound, best, r);
                assert(!hit_below(hits, q, bound));
                if exists|p: usize| i <= p < n && #[trigger] hit_below(hits, p, bound) {
                    let p = choose|p: usize| i <= p < n && #[trigger] hit_below(hits, p, bound);
                    assert(p != q);
                }
            },
        }
    }
}

/// A list answers the nearest hit below its bound: with `probe(p, t)` giving
/// primitive `p`'s nearest hit `hits(p)` exactly when it lies below `t`, the
/// answer is nothing when no primitive has a hit below `tmax`, and otherwise
/// the hit of one of them, no later than any other's.
pub proof fn lemma_list_is_nearest<R, P: Fn(usize, u64) -> Option<(u64, R)>>(
    probe: P,
    hits: spec_fn(usize) -> Option<(u64, R)>,
    count: usize,
    tmax: u64,
    r: Option<(u64, R)>,
)
    requires
        forall|p: usize, t: u64, v: Option<(u64, R)>| #[trigger] probe.ensures((p, t), v) ==> v == below_bound(hits, p, t),
        list_outcome(probe, 0, count as int, tmax, None, r),
    ensures
        r is None <==> forall|p: usize| p < count ==> !#[trigger] hit_below(hits, p, tmax),
        r is Some ==> exists|p: usize| p < count && #[trigger] hits(p) == r && hit_below(hits, p, tmax),
        r is Some ==> forall|p: usize| p < count && #[trigger] hit_below(hits, p, tmax) ==> r.unwrap().0 <= hits(p).unwrap().0,
{
    lemma_list_nearest_from(probe, hits, 0, count as int, tmax, None, r);
}

} // verus!
