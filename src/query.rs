//! Nearest-hit queries, through the hierarchy and by a scan of the list.
//!
//! The geometry is reached through two closures. `leaf(o, lo, hi)` asks
//! object `o` for its nearest hit strictly inside `(lo, hi)` and returns its
//! distance with a payload (a hit record); `bbox(j, lo, hi)` tests whether a
//! ray may meet node `j`'s box inside `(lo, hi)`. Distances are order keys.
//!
//! The queries need three things of the closures. A reported hit lies inside
//! the interval. Reports are consistent: a hit at `t` found under one upper
//! bound is the hit found under any upper bound above `t`. And a box test
//! that fails rules out every hit of every object under the node.

use vstd::prelude::*;
use crate::bvh::{leaves, all_objects, child_ok, BVHTree, BvhChild, rank};

verus! {

/// The distance of a report, if it is a hit.
pub open spec fn report_t<R>(r: Option<(i32, R)>) -> Option<i32> {
    match r {
        Some((t, _)) => Some(t),
        None => None,
    }
}

/// No report for object `o` from `lo` ever has a hit before `t`.
pub open spec fn misses<R, L: Fn(usize, i32, i32) -> Option<(i32, R)>>(
    leaf: L,
    o: usize,
    lo: i32,
    t: int,
) -> bool {
    forall|h: i32, r: Option<(i32, R)>| #[trigger]
        leaf.ensures((o, lo, h), r) ==> match report_t(r) {
            Some(u) => u >= t,
            None => true,
        }
}

/// Every report lies strictly inside its interval.
pub open spec fn reports_in_range<R, L: Fn(usize, i32, i32) -> Option<(i32, R)>>(
    leaf: L,
) -> bool {
    forall|o: usize, lo: i32, h: i32, r: Option<(i32, R)>| #[trigger]
        leaf.ensures((o, lo, h), r) ==> match report_t(r) {
            Some(t) => lo < t < h,
            None => true,
        }
}

/// A hit at `t` reported under one upper bound is reported, at `t`, under
/// every upper bound above `t`.
pub open spec fn reports_consistent<R, L: Fn(usize, i32, i32) -> Option<(i32, R)>>(
    leaf: L,
) -> bool {
    forall|o: usize, lo: i32, h1: i32, h2: i32, r1: Option<(i32, R)>, r2: Option<(i32, R)>|
        #[trigger] leaf.ensures((o, lo, h1), r1) && #[trigger] leaf.ensures((o, lo, h2), r2)
            ==> match report_t(r1) {
            Some(t1) => t1 < h2 ==> report_t(r2) == Some(t1),
            None => true,
        }
}

/// `res` is a nearest hit over the objects `s` inside `(lo, hi)`: either no
/// object of `s` has a hit there, or `res` names an object of `s` with a
/// reported hit at `t`, before which no object of `s` has a hit.
pub open spec fn is_nearest<R, L: Fn(usize, i32, i32) -> Option<(i32, R)>>(
    leaf: L,
    s: Set<usize>,
    lo: i32,
    hi: i32,
    res: Option<(usize, i32, R)>,
) -> bool {
    match res {
        None => forall|o: usize| #[trigger] s.contains(o) ==> misses(leaf, o, lo, hi as int),
        Some((o, t, p)) => {
            &&& s.contains(o)
            &&& lo < t < hi
            &&& exists|h: i32| h <= hi && #[trigger] leaf.ensures((o, lo, h), Some((t, p)))
            &&& forall|x: usize| #[trigger] s.contains(x) ==> misses(leaf, x, lo, t as int)
        },
    }
}

/// A failed box test of node `j` rules out every hit of the objects under it.
pub open spec fn box_sound<R, L: Fn(usize, i32, i32) -> Option<(i32, R)>, B: Fn(
    usize,
    i32,
    i32,
) -> bool>(tree: BVHTree, bbox: B, leaf: L) -> bool {
    forall|j: usize, lo: i32, hi: i32| #[trigger]
        bbox.ensures((j, lo, hi), false) ==> forall|o: usize| #[trigger]
            leaves(tree.nodes@, BvhChild::Node(j)).contains(o) ==> misses(leaf, o, lo, hi as int)
}

pub open spec fn callable<R, L: Fn(usize, i32, i32) -> Option<(i32, R)>>(leaf: L) -> bool {
    forall|o: usize, lo: i32, h: i32| #[trigger] leaf.requires((o, lo, h))
}

/// Asks object `o` for a hit inside `(lo, hi)`. A miss rules out every hit
/// before `hi`; a hit at `t` rules out every hit before `t`.
fn ask_leaf<R, L: Fn(usize, i32, i32) -> Option<(i32, R)>>(leaf: &L, o: usize, lo: i32, hi: i32) -> (r:
    Option<(usize, i32, R)>)
    requires
        callable(*leaf),
        reports_in_range(*leaf),
        reports_consistent(*leaf),
    ensures
        is_nearest(*leaf, set![o], lo, hi, r),
{
    let res = leaf(o, lo, hi);
    proof {
        assert(leaf.ensures((o, lo, hi), res));
    }
    match res {
        Some((t, p)) => {
            proof {
                assert(lo < t < hi);
                assert forall|h: i32, r: Option<(i32, R)>| #[trigger]
                    leaf.ensures((o, lo, h), r) implies match report_t(r) {
                    Some(u) => u >= t,
                    None => true,
                } by {
                    if let Some(u) = report_t(r) {
                        if u < t {
                            assert(report_t(Some((t, p))) == Some(u));
                        }
                    }
                }
                assert(set![o].contains(o));
            }
            Some((o, t, p))
        },
        None => {
            proof {
                assert forall|h: i32, r: Option<(i32, R)>| #[trigger]
                    leaf.ensures((o, lo, h), r) implies match report_t(r) {
                    Some(u) => u >= hi,
                    None => true,
                } by {
                    if let Some(u) = report_t(r) {
                        if u < hi {
                            assert(report_t(res) == Some(u));
                        }
                    }
                }
            }
            None
        },
    }
}

/// Joins the answer `a` over `sa` in `(lo, hi)` with the answer `b` over `sb`
/// in `(lo, hi2)`, where `hi2` is the distance of `a` if it is a hit and `hi`
/// otherwise.
proof fn lemma_join_nearest<R, L: Fn(usize, i32, i32) -> Option<(i32, R)>>(
    leaf: L,
    sa: Set<usize>,
    sb: Set<usize>,
    lo: i32,
    hi: i32,
    hi2: i32,
    a: Option<(usize, i32, R)>,
    b: Option<(usize, i32, R)>,
)
    requires
        is_nearest(leaf, sa, lo, hi, a),
        is_nearest(leaf, sb, lo, hi2, b),
        hi2 == match a {
            Some((_, t, _)) => t,
            None => hi,
        },
    ensures
        is_nearest(
            leaf,
            sa.union(sb),
            lo,
            hi,
            match b {
                Some(_) => b,
                None => a,
            },
        ),
{
    let s = sa.union(sb);
    match b {
        Some((ob, tb, pb)) => {
            assert(tb < hi2 <= hi);
            let h = choose|h: i32| h <= hi2 && #[trigger] leaf.ensures((ob, lo, h), Some((tb, pb)));
            assert(leaf.ensures((ob, lo, h), Some((tb, pb))));
            assert(s.contains(ob));
            assert forall|x: usize| #[trigger] s.contains(x) implies misses(leaf, x, lo, tb as int) by {
                if sa.contains(x) {
                    assert(misses(leaf, x, lo, hi2 as int));
                } else {
                    assert(sb.contains(x));
                }
            }
        },
        None => match a {
            Some((oa, ta, pa)) => {
                assert(s.contains(oa));
                let h = choose|h: i32| h <= hi && #[trigger] leaf.ensures((oa, lo, h), Some((ta, pa)));
                assert(leaf.ensures((oa, lo, h), Some((ta, pa))));
                assert forall|x: usize| #[trigger] s.contains(x) implies misses(leaf, x, lo, ta as int) by {
                    if sa.contains(x) {
                    } else {
                        assert(sb.contains(x));
                    }
                }
            },
            None => {
                assert forall|x: usize| #[trigger] s.contains(x) implies misses(leaf, x, lo, hi as int) by {
                    if sa.contains(x) {
                    } else {
                        assert(sb.contains(x));
                    }
                }
            },
        },
    }
}

impl BVHTree {
    /// The nearest hit inside `(lo, hi)` among the objects under `c`: a node
    /// whose box test fails is skipped; otherwise its left child is asked
    /// first, and its right child is asked inside `(lo, t)` when the left
    /// one reported a hit at `t`.
    fn hit_child<R, L: Fn(usize, i32, i32) -> Option<(i32, R)>, B: Fn(usize, i32, i32) -> bool>(
        &self,
        c: BvhChild,
        bbox: &B,
        leaf: &L,
        lo: i32,
        hi: i32,
    ) -> (r: Option<(usize, i32, R)>)
        requires
            self.linked(),
            child_ok(c, self.nodes.len() as int, usize::MAX as int + 1),
            callable(*leaf),
            forall|j: usize, a: i32, b: i32| #[trigger] bbox.requires((j, a, b)),
            reports_in_range(*leaf),
            reports_consistent(*leaf),
            box_sound(*self, *bbox, *leaf),
        ensures
            is_nearest(*leaf, leaves(self.nodes@, c), lo, hi, r),
        decreases rank(c),
    {
        match c {
            BvhChild::Object(o) => {
                let r = ask_leaf(leaf, o, lo, hi);
                assert(leaves(self.nodes@, c) == set![o]);
                r
            },
            BvhChild::Node(j) => {
                let nd = self.nodes[j];
                assert(child_ok(nd.left, j as int, usize::MAX as int + 1));
                assert(child_ok(nd.right, j as int, usize::MAX as int + 1));
                let ghost s = leaves(self.nodes@, c);
                assert(s == leaves(self.nodes@, nd.left).union(leaves(self.nodes@, nd.right)));
                if !bbox(j, lo, hi) {
                    assert(forall|o: usize| #[trigger] s.contains(o) ==> misses(*leaf, o, lo, hi as int));
                    return None;
                }
                let a = self.hit_child(nd.left, bbox, leaf, lo, hi);
                let hi2 = match &a {
                    Some((_, t, _)) => *t,
                    None => hi,
                };
                let b = self.hit_child(nd.right, bbox, leaf, lo, hi2);
                proof {
                    lemma_join_nearest(
                        *leaf,
                        leaves(self.nodes@, nd.left),
                        leaves(self.nodes@, nd.right),
                        lo,
                        hi,
                        hi2,
                        a,
                        b,
                    );
                }
                match b {
                    Some(_) => b,
                    None => a,
                }
            },
        }
    }

    /// The nearest hit inside `(lo, hi)` among all objects of the hierarchy.
    pub fn hit<R, L: Fn(usize, i32, i32) -> Option<(i32, R)>, B: Fn(usize, i32, i32) -> bool>(
        &self,
        bbox: &B,
        leaf: &L,
        lo: i32,
        hi: i32,
    ) -> (r: Option<(usize, i32, R)>)
        requires
            self.linked(),
            callable(*leaf),
            forall|j: usize, a: i32, b: i32| #[trigger] bbox.requires((j, a, b)),
            reports_in_range(*leaf),
            reports_consistent(*leaf),
            box_sound(*self, *bbox, *leaf),
        ensures
            is_nearest(*leaf, self.objects(), lo, hi, r),
    {
        self.hit_child(BvhChild::Node(self.root), bbox, leaf, lo, hi)
    }
}

/// The nearest hit inside `(lo, hi)` among objects `0..n`, asking each in
/// turn with the upper bound narrowed to the nearest hit found so far.
pub fn scan_hit<R, L: Fn(usize, i32, i32) -> Option<(i32, R)>>(
    n: usize,
    leaf: &L,
    lo: i32,
    hi: i32,
) -> (r: Option<(usize, i32, R)>)
    requires
        callable(*leaf),
        reports_in_range(*leaf),
        reports_consistent(*leaf),
    ensures
        is_nearest(*leaf, all_objects(n as int), lo, hi, r),
{
    let mut best: Option<(usize, i32, R)> = None;
    let mut bound: i32 = hi;
    let mut o: usize = 0;
    assert(all_objects(0) =~= Set::<usize>::empty());
    while o < n
        invariant
            o <= n,
            callable(*leaf),
            reports_in_range(*leaf),
            reports_consistent(*leaf),
            is_nearest(*leaf, all_objects(o as int), lo, hi, best),
            bound == match best {
                Some((_, t, _)) => t,
                None => hi,
            },
        decreases n - o,
    {
        let found = ask_leaf(leaf, o, lo, bound);
        proof {
            lemma_join_nearest(*leaf, all_objects(o as int), set![o], lo, hi, bound, best, found);
            assert(all_objects(o as int).union(set![o]) =~= all_objects(o as int + 1));
        }
        match found {
            Some((x, t, p)) => {
                best = Some((x, t, p));
                bound = t;
            },
            None => {},
        }
        o = o + 1;
    }
    best
}

/// A nearest hit is unique up to the object: two answers over the same
/// objects and interval agree on whether there is a hit and at which distance.
/// So the hierarchy and the scan of the list it was built over report the same
/// nearest distance for every query.
pub proof fn lemma_nearest_is_unique<R, L: Fn(usize, i32, i32) -> Option<(i32, R)>>(
    leaf: L,
    s: Set<usize>,
    lo: i32,
    hi: i32,
    a: Option<(usize, i32, R)>,
    b: Option<(usize, i32, R)>,
)
    requires
        is_nearest(leaf, s, lo, hi, a),
        is_nearest(leaf, s, lo, hi, b),
    ensures
        a is None <==> b is None,
        match (a, b) {
            (Some((_, ta, _)), Some((_, tb, _))) => ta == tb,
            _ => true,
        },
{
    match (a, b) {
        (Some((oa, ta, pa)), Some((ob, tb, pb))) => {
            assert(misses(leaf, oa, lo, tb as int));
            assert(misses(leaf, ob, lo, ta as int));
            assert(report_t(Some((ta, pa))) == Some(ta));
            assert(report_t(Some((tb, pb))) == Some(tb));
        },
        (Some((oa, ta, pa)), None) => {
            assert(misses(leaf, oa, lo, hi as int));
            assert(report_t(Some((ta, pa))) == Some(ta));
        },
        (None, Some((ob, tb, pb))) => {
            assert(misses(leaf, ob, lo, hi as int));
            assert(report_t(Some((tb, pb))) == Some(tb));
        },
        (None, None) => {},
    }
}

/// For a hierarchy built over objects `0..n`, an answer of the hierarchy and
/// an answer of the scan of the list agree on whether a ray hits and at which
/// nearest distance.
pub proof fn lemma_tree_matches_scan<R, L: Fn(usize, i32, i32) -> Option<(i32, R)>>(
    tree: BVHTree,
    n: usize,
    leaf: L,
    lo: i32,
    hi: i32,
    from_tree: Option<(usize, i32, R)>,
    from_scan: Option<(usize, i32, R)>,
)
    requires
        tree.objects() == all_objects(n as int),
        is_nearest(leaf, tree.objects(), lo, hi, from_tree),
        is_nearest(leaf, all_objects(n as int), lo, hi, from_scan),
    ensures
        from_tree is None <==> from_scan is None,
        match (from_tree, from_scan) {
            (Some((_, ta, _)), Some((_, tb, _))) => ta == tb,
            _ => true,
        },
{
    lemma_nearest_is_unique(leaf, all_objects(n as int), lo, hi, from_tree, from_scan);
}

} // verus!
