use rst_raytrace::bounds::{bits_of_key, key_of_bits, NEG_INF_KEY, POS_INF_KEY};
use rst_raytrace::{KeyBox, KeyInterval};

fn key(x: f32) -> i32 {
    key_of_bits(x.to_bits())
}

fn key_box(lo: [f32; 3], hi: [f32; 3]) -> KeyBox {
    KeyBox::from_bounding_points([key(lo[0]), key(lo[1]), key(lo[2])], [key(hi[0]), key(hi[1]), key(hi[2])])
}

#[test]
fn keys_follow_value_order() {
    let values = [
        f32::NEG_INFINITY,
        -1.0e30,
        -2.5,
        -1.0,
        -1.0e-30,
        0.0,
        1.0e-30,
        1.0,
        2.5,
        1.0e30,
        f32::INFINITY,
    ];
    for w in values.windows(2) {
        assert!(key(w[0]) < key(w[1]), "{} {}", w[0], w[1]);
    }
    assert_eq!(key(f32::INFINITY), POS_INF_KEY);
    assert_eq!(key(f32::NEG_INFINITY), NEG_INF_KEY);
    assert_eq!(key(0.0), 0);
    assert_eq!(key(-0.0), -1);
    assert_eq!(key(1.0), 1065353216);
    assert_eq!(key(-1.0), -1065353217);
}

#[test]
fn keys_round_trip_to_bits() {
    for x in [f32::NEG_INFINITY, -3.75, -0.0, 0.0, 1.0e-40, 7.0, f32::MAX, f32::INFINITY] {
        assert_eq!(f32::from_bits(bits_of_key(key(x))).to_bits(), x.to_bits());
    }
    for k in [NEG_INF_KEY, -5, -1, 0, 5, POS_INF_KEY] {
        assert_eq!(key_of_bits(bits_of_key(k)), k);
    }
}

#[test]
fn interval_empty_and_universe() {
    let e = KeyInterval::empty();
    assert_eq!(e.min, POS_INF_KEY);
    assert_eq!(e.max, NEG_INF_KEY);
    assert!(!e.contains(key(0.0)));
    assert!(!e.contains(key(100.0)));
    let u = KeyInterval::universe();
    assert!(u.contains(key(0.0)));
    assert!(u.contains(key(-100.0)));
    assert!(u.contains(key(f32::INFINITY)));
    assert!(u.surrounds(key(100.0)));
    assert!(!u.surrounds(key(f32::INFINITY)));
}

#[test]
fn interval_merge_and_contains() {
    let a = KeyInterval::new(key(1.0), key(3.0));
    let b = KeyInterval::new(key(-2.0), key(2.0));
    let m = a.merge(&b);
    assert_eq!(m, KeyInterval::new(key(-2.0), key(3.0)));
    assert!(m.contains(key(3.0)));
    assert!(!m.surrounds(key(3.0)));
    assert!(!m.contains(key(3.5)));
    assert_eq!(a.merge(&KeyInterval::empty()), a);
}

#[test]
fn box_merge_is_join_on_values() {
    let a = key_box([0.0, 1.0, 2.0], [1.0, 2.0, 3.0]);
    let b = key_box([-1.0, 1.5, 5.0], [0.5, 4.0, 6.0]);
    let c = key_box([2.0, -3.0, 0.0], [2.0, -2.0, 0.0]);
    let ab = a.merge(&b);
    assert_eq!(ab, key_box([-1.0, 1.0, 2.0], [1.0, 4.0, 6.0]));
    assert_eq!(ab, b.merge(&a));
    assert_eq!(ab.merge(&c), a.merge(&b.merge(&c)));
    assert_eq!(a.merge(&KeyBox::empty()), a);
    assert_eq!(KeyBox::empty().merge(&a), a);
    for axis in 0..3 {
        assert!(ab.axis(axis).min <= a.axis(axis).min && a.axis(axis).max <= ab.axis(axis).max);
        assert!(ab.axis(axis).min <= b.axis(axis).min && b.axis(axis).max <= ab.axis(axis).max);
    }
}

#[test]
fn box_axis_selects_interval() {
    let bbox = key_box([0.0, 0.0, 0.0], [1.0, 2.0, 3.0]);
    assert_eq!(bbox.axis(0), KeyInterval::new(key(0.0), key(1.0)));
    assert_eq!(bbox.axis(1), KeyInterval::new(key(0.0), key(2.0)));
    assert_eq!(bbox.axis(2), KeyInterval::new(key(0.0), key(3.0)));
    assert_eq!(bbox.axis(3), bbox.axis(0));
}

#[test]
fn box_from_corners_orders_bounds() {
    let a = key_box([3.0, -1.0, 2.0], [1.0, 4.0, 2.0]);
    assert_eq!(a.x, KeyInterval::new(key(1.0), key(3.0)));
    assert_eq!(a.y, KeyInterval::new(key(-1.0), key(4.0)));
    assert_eq!(a.z, KeyInterval::new(key(2.0), key(2.0)));
}
