use rust_raytracingv2::aabb::{enclosing, BoundingBox};
use rust_raytracingv2::keys::{bits_of_key, ordered_key};

fn key(x: f64) -> u64 {
    ordered_key(x.to_bits())
}

fn bx(min: [f64; 3], max: [f64; 3]) -> BoundingBox {
    BoundingBox::new(
        [key(min[0]), key(min[1]), key(min[2])],
        [key(max[0]), key(max[1]), key(max[2])],
    )
}

#[test]
fn keys_follow_the_order_of_doubles() {
    let values = [
        f64::NEG_INFINITY,
        -1.0e300,
        -2.5,
        -1.0,
        -1.0e-300,
        -0.0,
        0.0,
        1.0e-300,
        0.001,
        1.0,
        4.0,
        1.0e300,
        f64::INFINITY,
    ];
    for w in values.windows(2) {
        assert!(key(w[0]) < key(w[1]), "{} !< {}", w[0], w[1]);
    }
}

#[test]
fn keys_have_exact_values() {
    assert_eq!(ordered_key(0.0f64.to_bits()), 0x8000_0000_0000_0000);
    assert_eq!(ordered_key((-0.0f64).to_bits()), 0x7fff_ffff_ffff_ffff);
    assert_eq!(ordered_key(1.0f64.to_bits()), 0x3ff0_0000_0000_0000 | 0x8000_0000_0000_0000);
    assert_eq!(ordered_key((-1.0f64).to_bits()), !(0xbff0_0000_0000_0000u64));
}

#[test]
fn keys_round_trip() {
    for x in [-3.75f64, -0.0, 0.0, 0.5, 123456.789, f64::MAX, f64::MIN] {
        let back = f64::from_bits(bits_of_key(key(x)));
        assert_eq!(back.to_bits(), x.to_bits());
    }
}

#[test]
fn surrounding_box_holds_both_and_is_tightest() {
    let a = bx([0.0, -1.0, 2.0], [1.0, 1.0, 3.0]);
    let b = bx([-2.0, 0.5, 2.5], [0.5, 4.0, 2.75]);
    let s = BoundingBox::surrounding_box(&a, &b);
    assert_eq!(s.min, [key(-2.0), key(-1.0), key(2.0)]);
    assert_eq!(s.max, [key(1.0), key(4.0), key(3.0)]);
    for i in 0..3 {
        assert!(s.min[i] <= a.min[i] && s.min[i] <= b.min[i]);
        assert!(s.max[i] >= a.max[i] && s.max[i] >= b.max[i]);
        assert!(s.min[i] == a.min[i] || s.min[i] == b.min[i]);
        assert!(s.max[i] == a.max[i] || s.max[i] == b.max[i]);
    }
}

#[test]
fn surrounding_box_of_a_box_with_itself_is_the_box() {
    let a = bx([1.0, 2.0, 3.0], [4.0, 5.0, 6.0]);
    let s = BoundingBox::surrounding_box(&a, &a);
    assert_eq!(s.min, a.min);
    assert_eq!(s.max, a.max);
}

#[test]
fn enclosing_box_of_a_list() {
    assert!(enclosing(&Vec::new()).is_none());
    let boxes = vec![
        bx([0.0, 0.0, 0.0], [1.0, 1.0, 1.0]),
        bx([-1.0, 2.0, 0.5], [0.0, 3.0, 0.75]),
        bx([5.0, -4.0, -9.0], [6.0, -3.0, -8.0]),
    ];
    let e = enclosing(&boxes).unwrap();
    assert_eq!(e.min, [key(-1.0), key(-4.0), key(-9.0)]);
    assert_eq!(e.max, [key(6.0), key(3.0), key(1.0)]);
    let one = enclosing(&vec![boxes[1]]).unwrap();
    assert_eq!(one.min, boxes[1].min);
    assert_eq!(one.max, boxes[1].max);
}
