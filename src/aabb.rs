//! Axis-aligned bounding boxes over coordinate keys (see `keys`).
use vstd::prelude::*;

verus! {

/// An axis-aligned box, each corner given by the keys of its three coordinates.
/// Axis 0 is x, 1 is y, 2 is z.
#[derive(Clone, Copy, Debug)]
pub struct BoundingBox {
    pub min: [u64; 3],
    pub max: [u64; 3],
}

/// The smaller of two keys.
pub open spec fn min_key(a: u64, b: u64) -> u64 {
    if a <= b { a } else { b }
}

/// The larger of two keys.
pub open spec fn max_key(a: u64, b: u64) -> u64 {
    if a >= b { a } else { b }
}

fn lower(a: u64, b: u64) -> (r: u64)
    ensures
        r == min_key(a, b),
{
    if a <= b { a } else { b }
}

fn upper(a: u64, b: u64) -> (r: u64)
    ensures
        r == max_key(a, b),
{
    if a >= b { a } else { b }
}

impl BoundingBox {
    /// Along every axis the lower corner lies at or below the upper corner.
    pub open spec fn wf(&self) -> bool {
        forall|i: int| 0 <= i < 3 ==> #[trigger] self.min[i] <= self.max[i]
    }

    /// `other` lies inside this box along every axis.
    pub open spec fn contains(&self, other: BoundingBox) -> bool {
        forall|i: int|
            0 <= i < 3 ==> #[trigger] self.min[i] <= other.min[i] && other.max[i] <= self.max[i]
    }

    /// The box with corners `min` and `max`.
    pub fn new(min: [u64; 3], max: [u64; 3]) -> (r: BoundingBox)
        requires
            forall|i: int| 0 <= i < 3 ==> #[trigger] min[i] <= max[i],
        ensures
            r.min == min,
            r.max == max,
            r.wf(),
    {
        BoundingBox { min, max }
    }

    /// The smallest box holding both `a` and `b`: the per-axis minimum of the
    /// lower corners and maximum of the upper corners.
    pub fn surrounding_box(a: &BoundingBox, b: &BoundingBox) -> (r: BoundingBox)
        ensures
            forall|i: int|
                0 <= i < 3 ==> #[trigger] r.min[i] == min_key(a.min[i], b.min[i]) && r.max[i]
                    == max_key(a.max[i], b.max[i]),
    {
        let min: [u64; 3] = [
            lower(a.min[0], b.min[0]),
            lower(a.min[1], b.min[1]),
            lower(a.min[2], b.min[2]),
        ];
        let max: [u64; 3] = [
            upper(a.max[0], b.max[0]),
            upper(a.max[1], b.max[1]),
            upper(a.max[2], b.max[2]),
        ];
        assert forall|i: int| 0 <= i < 3 implies #[trigger] min[i] == min_key(a.min[i], b.min[i])
            && max[i] == max_key(a.max[i], b.max[i]) by {
            assert(i == 0 || i == 1 || i == 2);
        }
        BoundingBox { min, max }
    }
}

/// The surrounding box of two valid boxes is valid, holds both, and is the
/// tightest such box: any valid box holding both holds it too.
pub proof fn lemma_surrounding_box_tightest(a: BoundingBox, b: BoundingBox, s: BoundingBox)
    requires
        a.wf(),
        b.wf(),
        forall|i: int|
            0 <= i < 3 ==> #[trigger] s.min[i] == min_key(a.min[i], b.min[i]) && s.max[i]
                == max_key(a.max[i], b.max[i]),
    ensures
        s.wf(),
        s.contains(a),
        s.contains(b),
        forall|c: BoundingBox| c.contains(a) && c.contains(b) ==> #[trigger] c.contains(s),
{
    assert forall|c: BoundingBox| c.contains(a) && c.contains(b) implies #[trigger] c.contains(s) by {
        assert forall|i: int| 0 <= i < 3 implies #[trigger] c.min[i] <= s.min[i] && s.max[i]
            <= c.max[i] by {
            assert(c.min[i] <= a.min[i] && c.min[i] <= b.min[i]);
            assert(a.max[i] <= c.max[i] && b.max[i] <= c.max[i]);
        }
    }
}

/// Along axis `a`, the corners of `e` are corners of some of the first `n`
/// boxes.
pub open spec fn attained(e: BoundingBox, boxes: Seq<BoundingBox>, n: int, a: int) -> bool {
    &&& exists|k: int| 0 <= k < n && e.min[a] == #[trigger] boxes[k].min[a]
    &&& exists|k: int| 0 <= k < n && e.max[a] == #[trigger] boxes[k].max[a]
}

/// The box surrounding all of `boxes`, or `None` when there are none. Each of
/// its bounds is a bound of one of the boxes.
pub fn enclosing(boxes: &Vec<BoundingBox>) -> (r: Option<BoundingBox>)
    ensures
        r is None <==> boxes.len() == 0,
        r matches Some(e) ==> forall|k: int| 0 <= k < boxes.len() ==> e.contains(#[trigger] boxes[k]),
        r matches Some(e) ==> forall|a: int|
            0 <= a < 3 ==> #[trigger] attained(e, boxes@, boxes.len() as int, a),
{
    if boxes.len() == 0 {
        return None;
    }
    let mut acc = boxes[0];
    let mut n: usize = 1;
    proof {
        assert forall|a: int| 0 <= a < 3 implies #[trigger] attained(acc, boxes@, 1, a) by {
            assert(acc.min[a] == boxes@[0].min[a]);
            assert(acc.max[a] == boxes@[0].max[a]);
        }
    }
    while n < boxes.len()
        invariant
            1 <= n <= boxes.len(),
            forall|k: int| 0 <= k < n ==> acc.contains(#[trigger] boxes[k]),
            forall|a: int| 0 <= a < 3 ==> #[trigger] attained(acc, boxes@, n as int, a),
        decreases boxes.len() - n,
    {
        let next = BoundingBox::surrounding_box(&acc, &boxes[n]);
        proof {
            assert forall|k: int| 0 <= k <= n implies next.contains(#[trigger] boxes[k]) by {
                assert forall|a: int| 0 <= a < 3 implies #[trigger] next.min[a] <= boxes[k].min[a]
                    && boxes[k].max[a] <= next.max[a] by {
                    assert(next.min[a] == min_key(acc.min[a], boxes[n as int].min[a]));
                    assert(next.max[a] == max_key(acc.max[a], boxes[n as int].max[a]));
                    if k < n {
                        assert(acc.contains(boxes[k]));
                        assert(acc.min[a] <= boxes[k].min[a]);
                        assert(acc.max[a] >= boxes[k].max[a]);
                    }
                }
            }
            assert forall|a: int| 0 <= a < 3 implies #[trigger] attained(next, boxes@, n + 1, a) by {
                assert(attained(acc, boxes@, n as int, a));
                let k1 = choose|k: int| 0 <= k < n && acc.min[a] == #[trigger] boxes@[k].min[a];
                let k2 = choose|k: int| 0 <= k < n && acc.max[a] == #[trigger] boxes@[k].max[a];
                if next.min[a] == acc.min[a] {
                    assert(next.min[a] == boxes@[k1].min[a]);
                } else {
                    assert(next.min[a] == boxes@[n as int].min[a]);
                }
                if next.max[a] == acc.max[a] {
                    assert(next.max[a] == boxes@[k2].max[a]);
                } else {
                    assert(next.max[a] == boxes@[n as int].max[a]);
                }
            }
        }
        acc = next;
        n += 1;
    }
    Some(acc)
}

} // verus!
