use rst_raytrace::bounds::key_of_bits;
use rst_raytrace::{BVHTree, BvhChild, KeyBox, KeyInterval};

fn key(x: f32) -> i32 {
    key_of_bits(x.to_bits())
}

fn unit_box_at(x: f32, y: f32, z: f32) -> KeyBox {
    KeyBox::new(
        KeyInterval::new(key(x), key(x + 1.0)),
        KeyInterval::new(key(y), key(y + 1.0)),
        KeyInterval::new(key(z), key(z + 1.0)),
    )
}

fn collect(tree: &BVHTree, child: BvhChild, out: &mut Vec<usize>) {
    match child {
        BvhChild::Object(o) => out.push(o),
        BvhChild::Node(j) => {
            let node = tree.nodes[j];
            collect(tree, node.left, out);
            collect(tree, node.right, out);
        }
    }
}

fn child_box(tree: &BVHTree, boxes: &[KeyBox], child: BvhChild) -> KeyBox {
    match child {
        BvhChild::Object(o) => boxes[o],
        BvhChild::Node(j) => tree.nodes[j].bbox,
    }
}

fn check_tree(boxes: &Vec<KeyBox>) {
    let tree = BVHTree::new(boxes);
    assert_eq!(tree.root, tree.nodes.len() - 1);
    assert!(tree.nodes.len() <= 2 * boxes.len() - 1);
    let mut seen = Vec::new();
    collect(&tree, BvhChild::Node(tree.root), &mut seen);
    seen.sort();
    seen.dedup();
    assert_eq!(seen, (0..boxes.len()).collect::<Vec<_>>());
    let mut all = KeyBox::empty();
    for b in boxes {
        all = all.merge(b);
    }
    assert_eq!(tree.nodes[tree.root].bbox, all);
    for (j, node) in tree.nodes.iter().enumerate() {
        assert!(node.axis < 3);
        for c in [node.left, node.right] {
            if let BvhChild::Node(k) = c {
                assert!(k < j);
            }
        }
        let merged = child_box(&tree, boxes, node.left).merge(&child_box(&tree, boxes, node.right));
        assert_eq!(node.bbox, merged);
        let mut left = Vec::new();
        let mut right = Vec::new();
        collect(&tree, node.left, &mut left);
        collect(&tree, node.right, &mut right);
        left.sort();
        left.dedup();
        right.sort();
        right.dedup();
        if node.left != node.right {
            assert!(left.len() <= right.len() && right.len() <= left.len() + 1);
        }
        for a in &left {
            for b in &right {
                assert!(boxes[*a].axis(node.axis).min <= boxes[*b].axis(node.axis).min);
            }
        }
    }
}

#[test]
fn bvh_single_object_aliases_both_children() {
    let boxes = vec![unit_box_at(0.0, 0.0, 0.0)];
    let tree = BVHTree::new(&boxes);
    assert_eq!(tree.nodes.len(), 1);
    assert_eq!(tree.nodes[0].left, BvhChild::Object(0));
    assert_eq!(tree.nodes[0].right, BvhChild::Object(0));
    assert_eq!(tree.nodes[0].bbox, boxes[0]);
}

#[test]
fn bvh_two_objects_in_axis_order() {
    // the second box lies below the first on every axis
    let boxes = vec![unit_box_at(5.0, 5.0, 5.0), unit_box_at(-5.0, -5.0, -5.0)];
    for _ in 0..20 {
        let tree = BVHTree::new(&boxes);
        assert_eq!(tree.nodes.len(), 1);
        assert_eq!(tree.nodes[0].left, BvhChild::Object(1));
        assert_eq!(tree.nodes[0].right, BvhChild::Object(0));
    }
}

#[test]
fn bvh_equal_keys_keep_list_order() {
    let boxes = vec![unit_box_at(1.0, 1.0, 1.0), unit_box_at(1.0, 1.0, 1.0)];
    let tree = BVHTree::new(&boxes);
    assert_eq!(tree.nodes[0].left, BvhChild::Object(0));
    assert_eq!(tree.nodes[0].right, BvhChild::Object(1));
}

#[test]
fn bvh_covers_scene_of_many_objects() {
    let mut boxes = Vec::new();
    for i in 0..57 {
        let f = i as f32;
        boxes.push(unit_box_at((f * 7.0) % 13.0 - 6.0, (f * 3.0) % 11.0, -f));
    }
    for _ in 0..5 {
        check_tree(&boxes);
    }
}

#[test]
fn bvh_small_scenes() {
    for n in 1..9 {
        let boxes: Vec<KeyBox> = (0..n).map(|i| unit_box_at(-(i as f32), i as f32 * 0.5, 2.0)).collect();
        check_tree(&boxes);
    }
}

#[test]
fn bvh_flat_boxes_and_infinite_bounds() {
    let boxes = vec![
        KeyBox::new(
            KeyInterval::new(key(0.0), key(0.0)),
            KeyInterval::new(key(-1.0), key(1.0)),
            KeyInterval::new(key(-1.0), key(1.0)),
        ),
        KeyBox::new(
            KeyInterval::new(key(f32::NEG_INFINITY), key(f32::INFINITY)),
            KeyInterval::new(key(0.0), key(0.0)),
            KeyInterval::new(key(f32::NEG_INFINITY), key(f32::INFINITY)),
        ),
        unit_box_at(3.0, 3.0, 3.0),
    ];
    check_tree(&boxes);
}
