use std::cell::RefCell;

use rust_raytracingv2::aabb::BoundingBox;
use rust_raytracingv2::bvh::{closer, nearest_in_list, sort_on_axis, Bvh, BvhChild, BvhNode};
use rust_raytracingv2::keys::ordered_key;

fn key(x: f64) -> u64 {
    ordered_key(x.to_bits())
}

fn bx(min: [f64; 3], max: [f64; 3]) -> BoundingBox {
    BoundingBox::new(
        [key(min[0]), key(min[1]), key(min[2])],
        [key(max[0]), key(max[1]), key(max[2])],
    )
}

/// Unit cubes whose lower x corners are the given values.
fn cubes(xs: &[f64]) -> Vec<BoundingBox> {
    xs.iter().map(|&x| bx([x, 0.0, 0.0], [x + 1.0, 1.0, 1.0])).collect()
}

fn leaves(bvh: &Bvh, c: BvhChild, out: &mut Vec<usize>) {
    match c {
        BvhChild::Primitive(p) => out.push(p),
        BvhChild::Node(i) => {
            let n = bvh.nodes[i];
            leaves(bvh, n.left, out);
            if !(n.left == n.right) {
                leaves(bvh, n.right, out);
            }
        }
    }
}

#[test]
fn bvh_reaches_every_primitive_once() {
    let boxes = cubes(&[5.0, -3.0, 8.0, 0.0, 2.0, -7.0, 1.0]);
    let bvh = Bvh::new(boxes.clone());
    assert_eq!(bvh.root, bvh.nodes.len() - 1);
    let mut found = Vec::new();
    leaves(&bvh, BvhChild::Node(bvh.root), &mut found);
    found.sort();
    assert_eq!(found, (0..boxes.len()).collect::<Vec<_>>());
}

#[test]
fn bvh_node_boxes_surround_their_sides() {
    let boxes = cubes(&[5.0, -3.0, 8.0, 0.0, 2.0]);
    let bvh = Bvh::new(boxes.clone());
    let root = bvh.nodes[bvh.root].bounds;
    assert_eq!(root.min, [key(-3.0), key(0.0), key(0.0)]);
    assert_eq!(root.max, [key(9.0), key(1.0), key(1.0)]);
    for n in &bvh.nodes {
        let side = |c: BvhChild| match c {
            BvhChild::Primitive(p) => boxes[p],
            BvhChild::Node(i) => bvh.nodes[i].bounds,
        };
        let s = BoundingBox::surrounding_box(&side(n.left), &side(n.right));
        assert_eq!(n.bounds.min, s.min);
        assert_eq!(n.bounds.max, s.max);
    }
}

#[test]
fn bvh_single_primitive_sits_on_both_sides() {
    let boxes = cubes(&[4.0]);
    let bvh = Bvh::new(boxes);
    assert_eq!(bvh.nodes.len(), 1);
    assert!(bvh.nodes[0].left == BvhChild::Primitive(0));
    assert!(bvh.nodes[0].right == BvhChild::Primitive(0));
}

#[test]
fn bvh_pair_puts_the_lower_box_on_the_left() {
    let bvh = Bvh::new(cubes(&[3.0, -1.0]));
    assert!(bvh.nodes[0].left == BvhChild::Primitive(1));
    assert!(bvh.nodes[0].right == BvhChild::Primitive(0));
    let bvh = Bvh::new(cubes(&[-1.0, 3.0]));
    assert!(bvh.nodes[0].left == BvhChild::Primitive(0));
    assert!(bvh.nodes[0].right == BvhChild::Primitive(1));
}

#[test]
fn bvh_builder_cycles_the_axis() {
    let mut nodes: Vec<BvhNode> = Vec::new();
    let boxes = cubes(&[0.0, 1.0, 2.0, 3.0, 4.0, 5.0, 6.0, 7.0]);
    let root = BvhNode::new(&mut nodes, &boxes, (0..8).collect(), 0);
    assert_eq!(nodes[root].axis, 0);
    if let BvhChild::Node(l) = nodes[root].left {
        assert_eq!(nodes[l].axis, 1);
    } else {
        panic!("a split node expected");
    }
}

#[test]
fn sort_on_axis_orders_and_keeps_ties() {
    let boxes = vec![
        bx([2.0, 9.0, 0.0], [3.0, 10.0, 1.0]),
        bx([-1.0, 3.0, 0.0], [0.0, 4.0, 1.0]),
        bx([2.0, -5.0, 0.0], [3.0, -4.0, 1.0]),
        bx([0.5, 0.0, 0.0], [1.0, 1.0, 1.0]),
    ];
    assert_eq!(sort_on_axis(&boxes, &vec![0, 1, 2, 3], 0), vec![1, 3, 0, 2]);
    assert_eq!(sort_on_axis(&boxes, &vec![2, 1, 0, 3], 0), vec![1, 3, 2, 0]);
    assert_eq!(sort_on_axis(&boxes, &vec![0, 1, 2, 3], 1), vec![2, 3, 1, 0]);
}

#[test]
fn closer_prefers_smaller_time_and_left_on_ties() {
    assert_eq!(closer(Some((5, 'a')), Some((3, 'b'))), Some((3, 'b')));
    assert_eq!(closer(Some((2, 'a')), Some((3, 'b'))), Some((2, 'a')));
    assert_eq!(closer(Some((3, 'a')), Some((3, 'b'))), Some((3, 'a')));
    assert_eq!(closer(None, Some((3, 'b'))), Some((3, 'b')));
    assert_eq!(closer(Some((3, 'a')), None), Some((3, 'a')));
    assert_eq!(closer::<char>(None, None), None);
}

#[test]
fn two_primitive_node_returns_the_nearer_hit() {
    let bvh = Bvh::new(cubes(&[0.0, 4.0]));
    let times = [2.5f64, 1.5];
    let r = bvh.hit(&|_: BvhChild| true, &|p: usize| Some((key(times[p]), p)));
    assert_eq!(r, Some((key(1.5), 1)));
    let only_left = bvh.hit(&|_: BvhChild| true, &|p: usize| {
        if p == 0 { Some((key(2.5), p)) } else { None }
    });
    assert_eq!(only_left, Some((key(2.5), 0)));
}

#[test]
fn equal_times_give_the_left_side() {
    let bvh = Bvh::new(cubes(&[0.0, 4.0]));
    let r = bvh.hit(&|_: BvhChild| true, &|p: usize| Some((key(1.0), p)));
    assert_eq!(r, Some((key(1.0), 0)));
}

#[test]
fn missed_root_box_probes_nothing() {
    let bvh = Bvh::new(cubes(&[0.0, 4.0, 8.0]));
    let probed = RefCell::new(Vec::new());
    let r = bvh.hit(&|_: BvhChild| false, &|p: usize| {
        probed.borrow_mut().push(p);
        Some((key(1.0), p))
    });
    assert_eq!(r, None);
    assert!(probed.borrow().is_empty());
}

#[test]
fn missed_side_box_probes_only_the_other_side() {
    // Sorted on x: primitive 0 alone on the left, 1 and 2 on the right.
    let bvh = Bvh::new(cubes(&[0.0, 4.0, 8.0]));
    let root = bvh.nodes[bvh.root];
    let left = match root.left {
        BvhChild::Node(l) => l,
        _ => panic!("a node expected on the left"),
    };
    assert!(bvh.nodes[left].left == BvhChild::Primitive(0));
    let probed = RefCell::new(Vec::new());
    let r = bvh.hit(&|c: BvhChild| c != BvhChild::Node(left), &|p: usize| {
        probed.borrow_mut().push(p);
        Some((key(10.0 - p as f64), p))
    });
    assert_eq!(r, Some((key(8.0), 2)));
    let mut seen = probed.borrow().clone();
    seen.sort();
    assert_eq!(seen, vec![1, 2]);
}

#[test]
fn hit_finds_the_nearest_of_many() {
    let xs = [7.0, 3.0, 11.0, 5.0, 9.0, 1.0, 13.0];
    let bvh = Bvh::new(cubes(&xs));
    // A ray from x = 4 towards +x meets the cubes starting at or beyond 4.
    let reaches = |c: BvhChild| match c {
        BvhChild::Node(i) => bvh.nodes[i].bounds.max[0] >= key(4.0),
        BvhChild::Primitive(p) => bvh.boxes[p].max[0] >= key(4.0),
    };
    let r = bvh.hit(&reaches, &|p: usize| {
        if xs[p] >= 4.0 { Some((key(xs[p] - 4.0), p)) } else { None }
    });
    assert_eq!(r, Some((key(1.0), 3)));
}

#[test]
fn list_keeps_the_nearest_and_lowers_the_bound() {
    let times = [5.0f64, 3.0, 4.0, 1.0, 2.0];
    let bounds = RefCell::new(Vec::new());
    let r = nearest_in_list(times.len(), key(10.0), &|p: usize, bound: u64| {
        bounds.borrow_mut().push(bound);
        if key(times[p]) < bound { Some((key(times[p]), p)) } else { None }
    });
    assert_eq!(r, Some((key(1.0), 3)));
    assert_eq!(*bounds.borrow(), vec![key(10.0), key(5.0), key(3.0), key(3.0), key(1.0)]);
}

#[test]
fn empty_or_missed_list_has_no_hit() {
    let none = nearest_in_list(0, key(10.0), &|p: usize, _: u64| Some((key(1.0), p)));
    assert_eq!(none, None);
    let missed = nearest_in_list(3, key(10.0), &|_: usize, _: u64| None::<(u64, usize)>);
    assert_eq!(missed, None);
}

#[test]
fn missed_primitive_box_is_not_probed() {
    let bvh = Bvh::new(cubes(&[0.0, 4.0]));
    let probed = RefCell::new(Vec::new());
    let r = bvh.hit(&|c: BvhChild| c != BvhChild::Primitive(0), &|p: usize| {
        probed.borrow_mut().push(p);
        Some((key(1.0 + p as f64), p))
    });
    assert_eq!(r, Some((key(2.0), 1)));
    assert_eq!(*probed.borrow(), vec![1]);
}

fn count(bvh: &Bvh, c: BvhChild) -> usize {
    match c {
        BvhChild::Primitive(_) => 1,
        BvhChild::Node(i) => {
            let n = bvh.nodes[i];
            if n.left == n.right { count(bvh, n.left) } else { count(bvh, n.left) + count(bvh, n.right) }
        }
    }
}

#[test]
fn bvh_splits_at_the_middle() {
    let bvh = Bvh::new(cubes(&[9.0, 2.0, 7.0, 4.0, 1.0, 8.0, 3.0]));
    assert_eq!(count(&bvh, BvhChild::Node(bvh.root)), 7);
    for n in &bvh.nodes {
        if n.left != n.right {
            let (l, r) = (count(&bvh, n.left), count(&bvh, n.right));
            assert_eq!(l, (l + r) / 2);
        }
    }
}

#[test]
fn child_nodes_use_the_next_axis() {
    let bvh = Bvh::new(cubes(&[9.0, 2.0, 7.0, 4.0, 1.0, 8.0, 3.0, 5.0, 6.0, 0.0]));
    assert_eq!(bvh.nodes[bvh.root].axis, 0);
    for n in &bvh.nodes {
        for c in [n.left, n.right] {
            if let BvhChild::Node(j) = c {
                assert_eq!(bvh.nodes[j].axis, (n.axis + 1) % 3);
            }
        }
    }
}
