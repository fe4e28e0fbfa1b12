//! Construction of a bounding volume hierarchy over a list of boxes.
//!
//! The tree is kept in an arena: every node refers to its children either as
//! an object (an index into the list of boxes) or as an earlier node of the
//! arena, so a node's children always stand before it and the last node is
//! the root. Each node splits its objects along one axis, chosen at random,
//! at the median of the boxes' lower bounds on that axis.

use vstd::prelude::*;
use crate::bounds::KeyBox;
use crate::random::random_below;

verus! {

/// A child of a node: an object of the scene or another node of the arena.
#[derive(Debug, Clone, Copy, PartialEq, Eq)]
pub enum BvhChild {
    Object(usize),
    Node(usize),
}

/// An inner node of the hierarchy. A node over a single object holds that
/// object as both children.
#[derive(Debug, Clone, Copy, PartialEq, Eq)]
pub struct BVHNode {
    /// The merge of the children's boxes.
    pub bbox: KeyBox,
    /// The axis along which the objects were ordered when this node was split.
    pub axis: usize,
    pub left: BvhChild,
    pub right: BvhChild,
}

/// A hierarchy whose root is `nodes[root]`.
#[derive(Debug)]
pub struct BVHTree {
    pub nodes: Vec<BVHNode>,
    pub root: usize,
}

pub open spec fn rank(c: BvhChild) -> nat {
    match c {
        BvhChild::Object(_) => 0,
        BvhChild::Node(j) => j as nat + 1,
    }
}

/// `c` is an object below `n` or a node that stands before index `below`.
pub open spec fn child_ok(c: BvhChild, below: int, n: int) -> bool {
    match c {
        BvhChild::Object(o) => o < n,
        BvhChild::Node(j) => j < below,
    }
}

/// Every node refers only to objects below `n` and to earlier nodes.
pub open spec fn nodes_wf(nodes: Seq<BVHNode>, n: int) -> bool {
    forall|j: int|
        0 <= j < nodes.len() ==> child_ok(#[trigger] nodes[j].left, j, n) && child_ok(
            nodes[j].right,
            j,
            n,
        ) && nodes[j].axis < 3
}

/// The objects under a child.
pub open spec fn leaves(nodes: Seq<BVHNode>, c: BvhChild) -> Set<usize>
    decreases rank(c),
{
    match c {
        BvhChild::Object(o) => set![o],
        BvhChild::Node(j) => {
            if j < nodes.len() && rank(nodes[j as int].left) < rank(c) && rank(nodes[j as int].right)
                < rank(c) {
                leaves(nodes, nodes[j as int].left).union(leaves(nodes, nodes[j as int].right))
            } else {
                Set::empty()
            }
        },
    }
}

/// The box of a child.
pub open spec fn child_box(nodes: Seq<BVHNode>, boxes: Seq<KeyBox>, c: BvhChild) -> KeyBox {
    match c {
        BvhChild::Object(o) => boxes[o as int],
        BvhChild::Node(j) => nodes[j as int].bbox,
    }
}

/// The key by which objects are ordered along `axis`: the lower bound of the
/// object's box on that axis.
pub open spec fn sort_key(boxes: Seq<KeyBox>, o: usize, axis: usize) -> int {
    boxes[o as int].spec_axis(axis as int).min as int
}

/// Node `j` holds a single object as both children, or splits its objects
/// at the middle: its right side has as many objects as its left side, or one
/// more.
pub open spec fn node_balanced(nodes: Seq<BVHNode>, j: int) -> bool {
    let nd = nodes[j];
    let l = leaves(nodes, nd.left);
    let r = leaves(nodes, nd.right);
    ||| nd.left is Object && nd.left == nd.right
    ||| l.finite() && r.finite() && l.disjoint(r) && l.len() <= r.len() <= l.len() + 1
}

/// Node `j` has the merged box of its children, splits its objects at the
/// middle, and along its axis no object on its left comes after an object on
/// its right.
pub open spec fn node_ok(nodes: Seq<BVHNode>, boxes: Seq<KeyBox>, j: int) -> bool {
    let nd = nodes[j];
    &&& nd.bbox == child_box(nodes, boxes, nd.left).spec_merge(child_box(nodes, boxes, nd.right))
    &&& node_balanced(nodes, j)
    &&& forall|a: usize, b: usize|
        #[trigger] leaves(nodes, nd.left).contains(a) && #[trigger] leaves(
            nodes,
            nd.right,
        ).contains(b) ==> sort_key(boxes, a, nd.axis) <= sort_key(boxes, b, nd.axis)
}

pub open spec fn tree_wf(nodes: Seq<BVHNode>, boxes: Seq<KeyBox>) -> bool {
    &&& nodes_wf(nodes, boxes.len() as int)
    &&& forall|j: int| 0 <= j < nodes.len() ==> #[trigger] node_ok(nodes, boxes, j)
}

/// The values held at positions `lo..hi` of `s`.
pub open spec fn range_set(s: Seq<usize>, lo: int, hi: int) -> Set<usize> {
    Set::new(|x: usize| exists|k: int| lo <= k < hi && #[trigger] s[k] == x)
}

/// No value repeats at positions `lo..hi` of `s`.
pub open spec fn distinct_in(s: Seq<usize>, lo: int, hi: int) -> bool {
    forall|p: int, q: int| lo <= p < q < hi ==> #[trigger] s[p] != #[trigger] s[q]
}

/// The objects `0..n`.
pub open spec fn all_objects(n: int) -> Set<usize> {
    Set::new(|o: usize| o < n)
}

pub open spec fn is_prefix(a: Seq<BVHNode>, b: Seq<BVHNode>) -> bool {
    a.len() <= b.len() && forall|j: int| 0 <= j < a.len() ==> #[trigger] b[j] == a[j]
}

impl BVHTree {
    pub open spec fn wf(self, boxes: Seq<KeyBox>) -> bool {
        &&& tree_wf(self.nodes@, boxes)
        &&& self.root < self.nodes.len()
    }

    /// Every node refers only to earlier nodes, and the root is a node.
    pub open spec fn linked(self) -> bool {
        &&& nodes_wf(self.nodes@, usize::MAX as int + 1)
        &&& self.root < self.nodes.len()
    }

    pub open spec fn objects(self) -> Set<usize> {
        leaves(self.nodes@, BvhChild::Node(self.root))
    }

    /// Builds the hierarchy over `boxes`, one object per box.
    pub fn new(boxes: &Vec<KeyBox>) -> (t: BVHTree)
        requires
            1 <= boxes.len() <= usize::MAX / 2,
        ensures
            t.wf(boxes@),
            t.linked(),
            t.root == t.nodes.len() - 1,
            t.nodes.len() <= 2 * boxes.len() - 1,
            t.objects() == all_objects(boxes.len() as int),
    {
        let n = boxes.len();
        let mut order: Vec<usize> = Vec::new();
        let mut i: usize = 0;
        while i < n
            invariant
                i <= n,
                n == boxes.len(),
                order.len() == i,
                forall|k: int| 0 <= k < i ==> order[k] == k,
            decreases n - i,
        {
            order.push(i);
            i = i + 1;
        }
        let ghost order0 = order@;
        let mut nodes: Vec<BVHNode> = Vec::new();
        let root = split(boxes, &mut order, 0, n, &mut nodes);
        assert(range_set(order0, 0, n as int) =~= all_objects(n as int)) by {
            assert forall|o: usize| o < n implies range_set(order0, 0, n as int).contains(o) by {
                assert(order0[o as int] == o);
            }
        }
        BVHTree { nodes, root }
    }
}

/// The box of every node encloses the box of every object under it, so a
/// traversal that skips a node whose box a ray misses skips only objects whose
/// own boxes that ray misses too.
pub proof fn lemma_box_encloses_objects(nodes: Seq<BVHNode>, boxes: Seq<KeyBox>, c: BvhChild)
    requires
        tree_wf(nodes, boxes),
        child_ok(c, nodes.len() as int, boxes.len() as int),
    ensures
        forall|o: usize| #[trigger]
            leaves(nodes, c).contains(o) ==> o < boxes.len() && child_box(nodes, boxes, c).encloses(
                boxes[o as int],
            ),
    decreases rank(c),
{
    if let BvhChild::Node(j) = c {
        let nd = nodes[j as int];
        assert(node_ok(nodes, boxes, j as int));
        lemma_box_encloses_objects(nodes, boxes, nd.left);
        lemma_box_encloses_objects(nodes, boxes, nd.right);
        let lb = child_box(nodes, boxes, nd.left);
        let rb = child_box(nodes, boxes, nd.right);
        crate::bounds::lemma_merge_is_join(lb, rb, rb);
        assert(leaves(nodes, c) == leaves(nodes, nd.left).union(leaves(nodes, nd.right)));
        assert forall|o: usize| #[trigger] leaves(nodes, c).contains(o) implies o < boxes.len()
            && nd.bbox.encloses(boxes[o as int]) by {
            if leaves(nodes, nd.left).contains(o) {
                crate::bounds::lemma_encloses_trans(nd.bbox, lb, boxes[o as int]);
            } else {
                crate::bounds::lemma_encloses_trans(nd.bbox, rb, boxes[o as int]);
            }
        }
    }
}

/// A hierarchy built over a scene reaches every object of the scene from its
/// root, and the root's box encloses every object's box.
pub proof fn lemma_tree_covers_scene(t: BVHTree, boxes: Seq<KeyBox>)
    requires
        t.wf(boxes),
        t.objects() == all_objects(boxes.len() as int),
    ensures
        forall|o: usize|
            o < boxes.len() ==> #[trigger] t.objects().contains(o) && t.nodes@[t.root as int].bbox.encloses(
                boxes[o as int],
            ),
{
    lemma_box_encloses_objects(t.nodes@, boxes, BvhChild::Node(t.root));
    assert forall|o: usize| o < boxes.len() implies #[trigger] t.objects().contains(o)
        && t.nodes@[t.root as int].bbox.encloses(boxes[o as int]) by {
        assert(all_objects(boxes.len() as int).contains(o));
    }
}

proof fn lemma_leaves_stable(a: Seq<BVHNode>, b: Seq<BVHNode>, n: int, c: BvhChild)
    requires
        nodes_wf(a, n),
        is_prefix(a, b),
        child_ok(c, a.len() as int, n),
    ensures
        leaves(b, c) == leaves(a, c),
    decreases rank(c),
{
    if let BvhChild::Node(j) = c {
        let nd = a[j as int];
        assert(b[j as int] == nd);
        assert(child_ok(nd.left, j as int, n));
        lemma_leaves_stable(a, b, n, nd.left);
        lemma_leaves_stable(a, b, n, nd.right);
    }
}

/// Appending a node whose children stand before it and which is itself
/// well formed keeps the arena well formed.
proof fn lemma_push_keeps_wf(nodes: Seq<BVHNode>, boxes: Seq<KeyBox>, nd: BVHNode)
    requires
        tree_wf(nodes, boxes),
        child_ok(nd.left, nodes.len() as int, boxes.len() as int),
        child_ok(nd.right, nodes.len() as int, boxes.len() as int),
        nd.axis < 3,
        node_ok(nodes.push(nd), boxes, nodes.len() as int),
    ensures
        tree_wf(nodes.push(nd), boxes),
        is_prefix(nodes, nodes.push(nd)),
{
    let m = nodes.push(nd);
    let n = boxes.len() as int;
    assert(is_prefix(nodes, m));
    assert forall|j: int| 0 <= j < m.len() implies child_ok(#[trigger] m[j].left, j, n)
        && child_ok(m[j].right, j, n) && m[j].axis < 3 by {
        if j < nodes.len() {
            assert(m[j] == nodes[j]);
        }
    }
    assert forall|j: int| 0 <= j < m.len() implies #[trigger] node_ok(m, boxes, j) by {
        if j < nodes.len() {
            let x = nodes[j];
            assert(m[j] == x);
            assert(node_ok(nodes, boxes, j));
            lemma_leaves_stable(nodes, m, n, x.left);
            lemma_leaves_stable(nodes, m, n, x.right);
            assert(child_box(m, boxes, x.left) == child_box(nodes, boxes, x.left));
            assert(child_box(m, boxes, x.right) == child_box(nodes, boxes, x.right));
        }
    }
}

/// Leaves are preserved when the arena is extended by well-formed nodes.
proof fn lemma_prefix_keeps_leaves(a: Seq<BVHNode>, b: Seq<BVHNode>, n: int, j: usize)
    requires
        nodes_wf(a, n),
        is_prefix(a, b),
        j < a.len(),
    ensures
        leaves(b, BvhChild::Node(j)) == leaves(a, BvhChild::Node(j)),
        b[j as int] == a[j as int],
{
    lemma_leaves_stable(a, b, n, BvhChild::Node(j));
}

proof fn lemma_prefix_trans(a: Seq<BVHNode>, b: Seq<BVHNode>, c: Seq<BVHNode>)
    requires
        is_prefix(a, b),
        is_prefix(b, c),
    ensures
        is_prefix(a, c),
{
    assert forall|j: int| 0 <= j < a.len() implies #[trigger] c[j] == a[j] by {
        assert(c[j] == b[j]);
    }
}

proof fn lemma_range_set_split(s: Seq<usize>, lo: int, mid: int, hi: int)
    requires
        lo <= mid <= hi,
    ensures
        range_set(s, lo, hi) == range_set(s, lo, mid).union(range_set(s, mid, hi)),
{
    assert(range_set(s, lo, hi) =~= range_set(s, lo, mid).union(range_set(s, mid, hi))) by {
        assert forall|x: usize| range_set(s, lo, hi).contains(x) implies range_set(
            s,
            lo,
            mid,
        ).union(range_set(s, mid, hi)).contains(x) by {
            let k = choose|k: int| lo <= k < hi && #[trigger] s[k] == x;
            if k < mid {
                assert(range_set(s, lo, mid).contains(x));
            } else {
                assert(range_set(s, mid, hi).contains(x));
            }
        }
    }
}

proof fn lemma_range_set_len(s: Seq<usize>, lo: int, hi: int)
    requires
        0 <= lo <= hi <= s.len(),
        distinct_in(s, lo, hi),
    ensures
        range_set(s, lo, hi).finite(),
        range_set(s, lo, hi).len() == hi - lo,
    decreases hi - lo,
{
    if hi == lo {
        assert(range_set(s, lo, hi) =~= Set::<usize>::empty());
    } else {
        lemma_range_set_len(s, lo, hi - 1);
        assert(range_set(s, lo, hi) =~= range_set(s, lo, hi - 1).insert(s[hi - 1])) by {
            assert forall|x: usize| range_set(s, lo, hi).contains(x) implies range_set(
                s,
                lo,
                hi - 1,
            ).insert(s[hi - 1]).contains(x) by {
                let k = choose|k: int| lo <= k < hi && #[trigger] s[k] == x;
                if k < hi - 1 {
                    assert(range_set(s, lo, hi - 1).contains(x));
                }
            }
        }
        assert(!range_set(s, lo, hi - 1).contains(s[hi - 1]));
    }
}

proof fn lemma_range_set_same(s: Seq<usize>, t: Seq<usize>, lo: int, hi: int)
    requires
        0 <= lo <= hi <= s.len(),
        hi <= t.len(),
        forall|k: int| lo <= k < hi ==> s[k] == t[k],
    ensures
        range_set(s, lo, hi) == range_set(t, lo, hi),
{
    assert(range_set(s, lo, hi) =~= range_set(t, lo, hi)) by {
        assert forall|x: usize| range_set(s, lo, hi).contains(x) implies range_set(
            t,
            lo,
            hi,
        ).contains(x) by {
            let k = choose|k: int| lo <= k < hi && #[trigger] s[k] == x;
            assert(t[k] == x);
        }
        assert forall|x: usize| range_set(t, lo, hi).contains(x) implies range_set(
            s,
            lo,
            hi,
        ).contains(x) by {
            let k = choose|k: int| lo <= k < hi && #[trigger] t[k] == x;
            assert(s[k] == x);
        }
    }
}

proof fn lemma_swap_keeps_range_set(s: Seq<usize>, i: int, j: int, lo: int, hi: int)
    requires
        lo <= i < hi,
        lo <= j < hi,
        0 <= lo,
        hi <= s.len(),
    ensures
        range_set(s.update(i, s[j]).update(j, s[i]), lo, hi) == range_set(s, lo, hi),
{
    let t = s.update(i, s[j]).update(j, s[i]);
    assert(range_set(t, lo, hi) =~= range_set(s, lo, hi)) by {
        assert forall|x: usize| range_set(t, lo, hi).contains(x) implies range_set(
            s,
            lo,
            hi,
        ).contains(x) by {
            let k = choose|k: int| lo <= k < hi && #[trigger] t[k] == x;
            if k == j {
                assert(s[i] == x);
            } else if k == i {
                assert(s[j] == x);
            } else {
                assert(s[k] == x);
            }
        }
        assert forall|x: usize| range_set(s, lo, hi).contains(x) implies range_set(
            t,
            lo,
            hi,
        ).contains(x) by {
            let k = choose|k: int| lo <= k < hi && #[trigger] s[k] == x;
            if k == j {
                assert(t[i] == x);
            } else if k == i {
                assert(t[j] == x);
            } else {
                assert(t[k] == x);
            }
        }
    }
}

/// Sorts positions `start..end` of `order` by the objects' keys along `axis`,
/// keeping equal keys in their order (an insertion sort).
fn sort_range(
    boxes: &Vec<KeyBox>,
    order: &mut Vec<usize>,
    start: usize,
    end: usize,
    axis: usize,
)
    requires
        start <= end <= old(order).len(),
        forall|k: int| 0 <= k < old(order).len() ==> #[trigger] old(order)[k] < boxes.len(),
        distinct_in(old(order)@, start as int, end as int),
    ensures
        final(order).len() == old(order).len(),
        distinct_in(final(order)@, start as int, end as int),
        forall|k: int|
            0 <= k < old(order).len() && !(start <= k < end) ==> #[trigger] final(order)[k] == old(
                order,
            )[k],
        forall|k: int| 0 <= k < final(order).len() ==> #[trigger] final(order)[k] < boxes.len(),
        range_set(final(order)@, start as int, end as int) == range_set(
            old(order)@,
            start as int,
            end as int,
        ),
        forall|p: int, q: int|
            start <= p <= q < end ==> sort_key(boxes@, #[trigger] final(order)[p], axis)
                <= sort_key(boxes@, #[trigger] final(order)[q], axis),
{
    if end - start < 2 {
        return;
    }
    let ghost orig = order@;
    let mut i: usize = start + 1;
    while i < end
        invariant
            start + 1 <= i <= end,
            end <= order.len(),
            order.len() == orig.len(),
            forall|k: int| 0 <= k < orig.len() && !(start <= k < end) ==> #[trigger] order[k] == orig[k],
            forall|k: int| 0 <= k < order.len() ==> #[trigger] order[k] < boxes.len(),
            range_set(order@, start as int, end as int) == range_set(orig, start as int, end as int),
            distinct_in(order@, start as int, end as int),
            forall|p: int, q: int|
                start <= p <= q < i ==> sort_key(boxes@, #[trigger] order[p], axis) <= sort_key(
                    boxes@,
                    #[trigger] order[q],
                    axis,
                ),
        decreases end - i,
    {
        let mut j: usize = i;
        while j > start
            invariant
                start <= j <= i < end,
                end <= order.len(),
                order.len() == orig.len(),
                forall|k: int|
                    0 <= k < orig.len() && !(start <= k < end) ==> #[trigger] order[k] == orig[k],
                forall|k: int| 0 <= k < order.len() ==> #[trigger] order[k] < boxes.len(),
                range_set(order@, start as int, end as int) == range_set(
                    orig,
                    start as int,
                    end as int,
                ),
                distinct_in(order@, start as int, end as int),
                forall|p: int, q: int|
                    start <= p <= q <= i && p != j && q != j ==> sort_key(
                        boxes@,
                        #[trigger] order[p],
                        axis,
                    ) <= sort_key(boxes@, #[trigger] order[q], axis),
                forall|q: int|
                    j < q <= i ==> sort_key(boxes@, order[j as int], axis) < sort_key(
                        boxes@,
                        #[trigger] order[q],
                        axis,
                    ),
            ensures
                j == start || sort_key(boxes@, order[j - 1], axis) <= sort_key(
                    boxes@,
                    order[j as int],
                    axis,
                ),
            decreases j,
        {
            let a = order[j - 1];
            let b = order[j];
            if boxes[a].axis(axis).min <= boxes[b].axis(axis).min {
                break;
            }
            proof {
                lemma_swap_keeps_range_set(
                    order@,
                    j - 1,
                    j as int,
                    start as int,
                    end as int,
                );
            }
            order.set(j - 1, b);
            order.set(j, a);
            j = j - 1;
        }
        proof {
            assert forall|p: int, q: int|
                start <= p <= q <= i implies sort_key(boxes@, #[trigger] order[p], axis)
                <= sort_key(boxes@, #[trigger] order[q], axis) by {
                if p != j && q != j {
                } else if p == j && q == j {
                } else if p == j {
                    assert(sort_key(boxes@, order[j as int], axis) < sort_key(
                        boxes@,
                        order[q],
                        axis,
                    ));
                } else {
                    // q == j and p < j: the loop stopped at a key not above order[j]
                    assert(j > start);
                    assert(sort_key(boxes@, order[p], axis) <= sort_key(
                        boxes@,
                        order[j - 1],
                        axis,
                    ));
                }
            }
        }
        i = i + 1;
    }
}

/// Builds the subtree over positions `start..end` of `order`, appending its
/// nodes to the arena, and returns the index of its root.
fn split(
    boxes: &Vec<KeyBox>,
    order: &mut Vec<usize>,
    start: usize,
    end: usize,
    nodes: &mut Vec<BVHNode>,
) -> (j: usize)
    requires
        start < end <= old(order).len(),
        forall|k: int| 0 <= k < old(order).len() ==> #[trigger] old(order)[k] < boxes.len(),
        tree_wf(old(nodes)@, boxes@),
        old(nodes).len() + 2 * (end - start) <= usize::MAX,
        distinct_in(old(order)@, start as int, end as int),
    ensures
        final(order).len() == old(order).len(),
        distinct_in(final(order)@, start as int, end as int),
        forall|k: int|
            0 <= k < old(order).len() && !(start <= k < end) ==> #[trigger] final(order)[k] == old(
                order,
            )[k],
        forall|k: int| 0 <= k < final(order).len() ==> #[trigger] final(order)[k] < boxes.len(),
        range_set(final(order)@, start as int, end as int) == range_set(
            old(order)@,
            start as int,
            end as int,
        ),
        tree_wf(final(nodes)@, boxes@),
        is_prefix(old(nodes)@, final(nodes)@),
        j == final(nodes).len() - 1,
        old(nodes).len() <= j,
        final(nodes).len() <= old(nodes).len() + 2 * (end - start) - 1,
        leaves(final(nodes)@, BvhChild::Node(j)) == range_set(
            old(order)@,
            start as int,
            end as int,
        ),
    decreases end - start,
{
    let axis = random_below(3);
    let span = end - start;
    let ghost nodes0 = nodes@;
    let ghost order0 = order@;
    if span == 1 {
        let o = order[start];
        let nd = BVHNode {
            bbox: boxes[o].merge(&boxes[o]),
            axis,
            left: BvhChild::Object(o),
            right: BvhChild::Object(o),
        };
        proof {
            let m = nodes0.push(nd);
            assert(leaves(m, nd.left) == set![o]);
            assert(node_ok(m, boxes@, nodes0.len() as int));
            lemma_push_keeps_wf(nodes0, boxes@, nd);
            assert(leaves(m, BvhChild::Node(nodes0.len() as usize)) =~= set![o]);
            assert(range_set(order0, start as int, end as int) =~= set![o]) by {
                assert(order0[start as int] == o);
            }
        }
        nodes.push(nd);
        nodes.len() - 1
    } else if span == 2 {
        let a0 = order[start];
        let b0 = order[start + 1];
        let (a, b) = if boxes[a0].axis(axis).min <= boxes[b0].axis(axis).min {
            (a0, b0)
        } else {
            (b0, a0)
        };
        let nd = BVHNode {
            bbox: boxes[a].merge(&boxes[b]),
            axis,
            left: BvhChild::Object(a),
            right: BvhChild::Object(b),
        };
        proof {
            let m = nodes0.push(nd);
            assert(leaves(m, nd.left) == set![a]);
            assert(leaves(m, nd.right) == set![b]);
            assert(node_ok(m, boxes@, nodes0.len() as int));
            lemma_push_keeps_wf(nodes0, boxes@, nd);
            assert(leaves(m, BvhChild::Node(nodes0.len() as usize)) =~= set![a, b]);
            assert(range_set(order0, start as int, end as int) =~= set![a, b]) by {
                assert(order0[start as int] == a0);
                assert(order0[start + 1] == b0);
            }
        }
        nodes.push(nd);
        nodes.len() - 1
    } else {
        sort_range(boxes, order, start, end, axis);
        let ghost order1 = order@;
        let mid = start + span / 2;
        let l = split(boxes, order, start, mid, nodes);
        let ghost order2 = order@;
        let ghost nodes2 = nodes@;
        let r = split(boxes, order, mid, end, nodes);
        let ghost order3 = order@;
        let ghost nodes3 = nodes@;
        let bbox = nodes[l].bbox.merge(&nodes[r].bbox);
        let nd = BVHNode { bbox, axis, left: BvhChild::Node(l), right: BvhChild::Node(r) };
        proof {
            let n = boxes@.len() as int;
            lemma_prefix_keeps_leaves(nodes2, nodes3, n, l);
            lemma_prefix_trans(nodes0, nodes2, nodes3);
            // which objects lie under each half
            lemma_range_set_same(order1, order2, mid as int, end as int);
            lemma_range_set_same(order2, order3, start as int, mid as int);
            let ls = range_set(order1, start as int, mid as int);
            let rs = range_set(order1, mid as int, end as int);
            assert(leaves(nodes3, BvhChild::Node(l)) == ls);
            assert(leaves(nodes3, BvhChild::Node(r)) == rs);
            let m = nodes3.push(nd);
            lemma_leaves_stable(nodes3, m, n, BvhChild::Node(l));
            lemma_leaves_stable(nodes3, m, n, BvhChild::Node(r));
            assert forall|x: usize, y: usize|
                #[trigger] leaves(m, nd.left).contains(x) && #[trigger] leaves(
                    m,
                    nd.right,
                ).contains(y) implies sort_key(boxes@, x, axis) <= sort_key(boxes@, y, axis) by {
                let p = choose|p: int| start <= p < mid && #[trigger] order1[p] == x;
                let q = choose|q: int| mid <= q < end && #[trigger] order1[q] == y;
                assert(sort_key(boxes@, order1[p], axis) <= sort_key(boxes@, order1[q], axis));
            }
            // the halves hold distinct objects, as many on the left as on
            // the right or one fewer
            lemma_range_set_len(order1, start as int, mid as int);
            lemma_range_set_len(order1, mid as int, end as int);
            assert(ls.disjoint(rs)) by {
                assert forall|x: usize| ls.contains(x) implies !rs.contains(x) by {
                    let p = choose|p: int| start <= p < mid && #[trigger] order1[p] == x;
                    if rs.contains(x) {
                        let q = choose|q: int| mid <= q < end && #[trigger] order1[q] == x;
                        assert(order1[p] != order1[q]);
                    }
                }
            }
            assert(m[nodes3.len() as int] == nd);
            assert(node_balanced(m, nodes3.len() as int));
            assert(node_ok(m, boxes@, nodes3.len() as int));
            assert forall|p: int, q: int| start <= p < q < end implies #[trigger] order3[p]
                != #[trigger] order3[q] by {
                if q < mid {
                } else if p >= mid {
                } else {
                    assert(range_set(order3, start as int, mid as int).contains(order3[p]));
                    assert(range_set(order3, mid as int, end as int).contains(order3[q]));
                }
            }
            lemma_push_keeps_wf(nodes3, boxes@, nd);
            lemma_prefix_trans(nodes0, nodes3, m);
            lemma_range_set_split(order1, start as int, mid as int, end as int);
            lemma_range_set_split(order3, start as int, mid as int, end as int);
            assert(leaves(m, BvhChild::Node(nodes3.len() as usize)) == ls.union(rs));
        }
        nodes.push(nd);
        nodes.len() - 1
    }
}

} // verus!
