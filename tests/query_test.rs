use rst_raytrace::query::scan_hit;
use rst_raytrace::{BVHTree, KeyBox, KeyInterval};

// Objects are segments on the x axis, probed by a ray that travels along +x
// from the origin: the hit distance of a segment is its lower end.
fn segment(a: i32, b: i32) -> KeyBox {
    KeyBox::new(KeyInterval::new(a, b), KeyInterval::new(0, 1), KeyInterval::new(0, 1))
}

fn segment_hit(boxes: &[KeyBox], o: usize, lo: i32, hi: i32) -> Option<(i32, usize)> {
    let t = boxes[o].x.min;
    if lo < t && t < hi {
        Some((t, o))
    } else {
        None
    }
}

fn scene() -> Vec<KeyBox> {
    let mut boxes = Vec::new();
    for i in 0..40 {
        let a = (i * 37) % 101 + 3;
        boxes.push(segment(a, a + (i % 7)));
    }
    boxes
}

#[test]
fn bvh_query_matches_list_scan() {
    let boxes = scene();
    let tree = BVHTree::new(&boxes);
    let leaf = |o: usize, lo: i32, hi: i32| segment_hit(&boxes, o, lo, hi);
    let bbox = |j: usize, lo: i32, hi: i32| {
        let b = tree.nodes[j].bbox;
        b.x.max > lo && b.x.min < hi
    };
    for lo in [-10, 0, 3, 10, 50, 99] {
        for hi in [-5, 4, 20, 60, 104, 200] {
            let from_tree = tree.hit(&bbox, &leaf, lo, hi).map(|(_, t, _)| t);
            let from_scan = scan_hit(boxes.len(), &leaf, lo, hi).map(|(_, t, _)| t);
            assert_eq!(from_tree, from_scan, "lo {} hi {}", lo, hi);
            let expected = boxes.iter().map(|b| b.x.min).filter(|t| lo < *t && *t < hi).min();
            assert_eq!(from_scan, expected);
        }
    }
}

#[test]
fn scan_reports_nearest_object() {
    let boxes = vec![segment(30, 40), segment(10, 12), segment(20, 25), segment(10, 11)];
    let leaf = |o: usize, lo: i32, hi: i32| segment_hit(&boxes, o, lo, hi);
    // equal distances: the first object found keeps the hit
    assert_eq!(scan_hit(4, &leaf, 0, 100), Some((1, 10, 1)));
    assert_eq!(scan_hit(4, &leaf, 10, 100), Some((2, 20, 2)));
    assert_eq!(scan_hit(4, &leaf, 0, 10), None);
    assert_eq!(scan_hit(0, &leaf, 0, 100), None);
}

#[test]
fn bvh_query_skips_rejected_nodes() {
    let boxes = vec![segment(30, 40), segment(10, 12), segment(20, 25)];
    let tree = BVHTree::new(&boxes);
    let leaf = |o: usize, lo: i32, hi: i32| segment_hit(&boxes, o, lo, hi);
    let reject_all = |_j: usize, _lo: i32, _hi: i32| false;
    assert_eq!(tree.hit(&reject_all, &leaf, 0, 100).map(|(_, t, _)| t), None);
    let accept_all = |_j: usize, _lo: i32, _hi: i32| true;
    assert_eq!(tree.hit(&accept_all, &leaf, 0, 100).map(|(o, t, _)| (o, t)), Some((1, 10)));
    assert_eq!(tree.hit(&accept_all, &leaf, 10, 100).map(|(o, t, _)| (o, t)), Some((2, 20)));
}
