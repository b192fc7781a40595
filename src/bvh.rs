//! Construction of a median-split bounding volume hierarchy over a list of
//! bounded surfaces, named by their index in the list.

use vstd::prelude::*;
use vstd::multiset::Multiset;
use crate::aabb::{
    Aabb, envelops, envelops_on, is_union, lemma_envelope_is_union, min_key, max_key, all_present,
    present,
};
use crate::perlin::swap;
use crate::utils::random_int;

verus! {

/// A child of a hierarchy node: a surface of the list, or a subtree.
pub enum BvhChild {
    Leaf(usize),
    Node(Box<BVHNode>),
}

/// An inner node with its two children and the cached union of their boxes.
pub struct BVHNode {
    pub left: BvhChild,
    pub right: BvhChild,
    pub bbox: Aabb,
}

/// Why a hierarchy could not be built.
pub enum BvhError {
    /// The list holds no surface.
    Empty,
    /// The surface at this index reports no bounding box.
    MissingBoundingBox(usize),
}

/// The box of a child: the surface's own box, or the subtree's cached box.
pub open spec fn child_box(c: BvhChild, boxes: Seq<Aabb>) -> Aabb {
    match c {
        BvhChild::Leaf(k) => boxes[k as int],
        BvhChild::Node(n) => n.bbox,
    }
}

/// On each axis `b` is the union of `l` and `r`.
pub open spec fn surrounds(b: Aabb, l: Aabb, r: Aabb) -> bool {
    forall|a: int|
        0 <= a < 3 ==> #[trigger] b.min[a] == min_key(l.min[a], r.min[a]) && b.max[a] == max_key(
            l.max[a],
            r.max[a],
        )
}

/// Every leaf names a surface of `boxes` and every cached box is the union
/// of its children's boxes.
pub open spec fn child_wf(c: BvhChild, boxes: Seq<Aabb>) -> bool
    decreases c,
{
    match c {
        BvhChild::Leaf(k) => k < boxes.len(),
        BvhChild::Node(n) => node_wf(*n, boxes),
    }
}

pub open spec fn node_wf(n: BVHNode, boxes: Seq<Aabb>) -> bool
    decreases n,
{
    &&& child_wf(n.left, boxes)
    &&& child_wf(n.right, boxes)
    &&& surrounds(n.bbox, child_box(n.left, boxes), child_box(n.right, boxes))
}

/// The surfaces under a child, each counted once: a node whose two children
/// are the same leaf holds that one surface.
pub open spec fn child_items(c: BvhChild) -> Multiset<usize>
    decreases c,
{
    match c {
        BvhChild::Leaf(k) => Multiset::singleton(k),
        BvhChild::Node(n) => node_items(*n),
    }
}

pub open spec fn node_items(n: BVHNode) -> Multiset<usize>
    decreases n,
{
    if n.left is Leaf && n.left == n.right {
        child_items(n.left)
    } else {
        child_items(n.left).add(child_items(n.right))
    }
}

/// Every node is a median split: over one surface both children are that
/// leaf, over two both children are leaves, and over `m >= 3` both children
/// are nodes and the left one holds `m / 2` surfaces.
pub open spec fn child_median(c: BvhChild) -> bool
    decreases c,
{
    match c {
        BvhChild::Leaf(k) => true,
        BvhChild::Node(n) => node_median(*n),
    }
}

pub open spec fn node_median(n: BVHNode) -> bool
    decreases n,
{
    &&& child_median(n.left)
    &&& child_median(n.right)
    &&& node_items(n).len() == 1 ==> n.left is Leaf && n.left == n.right
    &&& node_items(n).len() == 2 ==> n.left is Leaf && n.right is Leaf
    &&& node_items(n).len() >= 3 ==> n.left is Node && n.right is Node && child_items(n.left).len()
        == node_items(n).len() / 2
}

/// The ordering key of surface `k` on `axis`: the `min` key of its box.
pub open spec fn key(boxes: Seq<Aabb>, k: usize, axis: int) -> i64 {
    boxes[k as int].min[axis]
}

/// On `axis`, no surface under the left child has a greater key than a
/// surface under the right child.
pub open spec fn split_on(n: BVHNode, boxes: Seq<Aabb>, axis: int) -> bool {
    forall|p: usize, q: usize|
        #[trigger] child_items(n.left).contains(p) && #[trigger] child_items(n.right).contains(q)
            ==> key(boxes, p, axis) <= key(boxes, q, axis)
}

/// Every node splits its surfaces in order on some axis.
pub open spec fn child_ordered(c: BvhChild, boxes: Seq<Aabb>) -> bool
    decreases c,
{
    match c {
        BvhChild::Leaf(k) => true,
        BvhChild::Node(n) => node_ordered(*n, boxes),
    }
}

pub open spec fn node_ordered(n: BVHNode, boxes: Seq<Aabb>) -> bool
    decreases n,
{
    &&& child_ordered(n.left, boxes)
    &&& child_ordered(n.right, boxes)
    &&& exists|axis: int| 0 <= axis < 3 && #[trigger] split_on(n, boxes, axis)
}

proof fn lemma_swap_contains(s: Seq<usize>, i: int, j: int)
    requires
        0 <= i < s.len(),
        0 <= j < s.len(),
    ensures
        swap(s, i, j).len() == s.len(),
        forall|k: usize| #[trigger] swap(s, i, j).contains(k) <==> s.contains(k),
{
    let t = swap(s, i, j);
    assert forall|k: usize| #[trigger] t.contains(k) <==> s.contains(k) by {
        if t.contains(k) {
            let p = choose|p: int| 0 <= p < t.len() && t[p] == k;
            let q = if p == i { j } else if p == j { i } else { p };
            assert(s[q] == k);
        }
        if s.contains(k) {
            let p = choose|p: int| 0 <= p < s.len() && s[p] == k;
            let q = if p == i { j } else if p == j { i } else { p };
            assert(t[q] == k);
        }
    }
}

proof fn lemma_swap_multiset(s: Seq<usize>, i: int, j: int)
    requires
        0 <= i < s.len(),
        0 <= j < s.len(),
    ensures
        swap(s, i, j).to_multiset() == s.to_multiset(),
{
    broadcast use vstd::seq_lib::group_to_multiset_ensures, vstd::multiset::group_multiset_axioms;

    let s1 = s.update(i, s[j]);
    assert(s1[j] == s[j]);
    assert(s.to_multiset().contains(s[i]));
    assert(s.to_multiset().contains(s[j]));
    assert(swap(s, i, j).to_multiset() =~= s.to_multiset());
}

proof fn lemma_no_duplicates_subrange(s: Seq<usize>, lo: int, hi: int)
    requires
        s.no_duplicates(),
        0 <= lo <= hi <= s.len(),
    ensures
        s.subrange(lo, hi).no_duplicates(),
{
    let t = s.subrange(lo, hi);
    assert forall|a: int, b: int| 0 <= a < t.len() && 0 <= b < t.len() && a != b implies t[a]
        != t[b] by {
        assert(t[a] == s[a + lo] && t[b] == s[b + lo]);
    }
}

proof fn lemma_leaf_envelops(boxes: Seq<Aabb>, k: usize)
    requires
        k < boxes.len(),
    ensures
        envelops(boxes[k as int], boxes, seq![k]),
{
    let s = seq![k];
    assert(s.contains(k)) by {
        assert(s[0] == k);
    }
    assert forall|a: int| 0 <= a < 3 implies #[trigger] envelops_on(boxes[k as int], boxes, s, a) by {
        assert forall|m: usize| #[trigger] s.contains(m) implies m == k by {}
    }
}

proof fn lemma_join_envelops(
    b: Aabb,
    lb: Aabb,
    rb: Aabb,
    boxes: Seq<Aabb>,
    l: Seq<usize>,
    r: Seq<usize>,
    items: Seq<usize>,
)
    requires
        envelops(lb, boxes, l),
        envelops(rb, boxes, r),
        surrounds(b, lb, rb),
        forall|k: usize| #[trigger] items.contains(k) <==> l.contains(k) || r.contains(k),
    ensures
        envelops(b, boxes, items),
{
    assert forall|a: int| 0 <= a < 3 implies #[trigger] envelops_on(b, boxes, items, a) by {
        assert(envelops_on(lb, boxes, l, a));
        assert(envelops_on(rb, boxes, r, a));
        assert(b.min[a] == min_key(lb.min[a], rb.min[a]));
        assert forall|k: usize| #[trigger] items.contains(k) implies b.min[a] <= boxes[k as int].min[a]
            && boxes[k as int].max[a] <= b.max[a] by {
            if l.contains(k) {
            } else {
                assert(r.contains(k));
            }
        }
        if lb.min[a] <= rb.min[a] {
            let k = choose|k: usize| #[trigger] l.contains(k) && lb.min[a] == boxes[k as int].min[a];
            assert(items.contains(k));
        } else {
            let k = choose|k: usize| #[trigger] r.contains(k) && rb.min[a] == boxes[k as int].min[a];
            assert(items.contains(k));
        }
        if lb.max[a] >= rb.max[a] {
            let k = choose|k: usize| #[trigger] l.contains(k) && lb.max[a] == boxes[k as int].max[a];
            assert(items.contains(k));
        } else {
            let k = choose|k: usize| #[trigger] r.contains(k) && rb.max[a] == boxes[k as int].max[a];
            assert(items.contains(k));
        }
    }
}

/// The surfaces `items` ordered by ascending `min` key on `axis`.
pub fn sort_by_axis(boxes: &Vec<Aabb>, items: Vec<usize>, axis: usize) -> (r: Vec<usize>)
    requires
        axis < 3,
        forall|i: int| 0 <= i < items@.len() ==> #[trigger] items@[i] < boxes@.len(),
    ensures
        r@.len() == items@.len(),
        r@.to_multiset() == items@.to_multiset(),
        forall|k: usize| #[trigger] r@.contains(k) <==> items@.contains(k),
        forall|i: int| 0 <= i < r@.len() ==> #[trigger] r@[i] < boxes@.len(),
        forall|p: int, q: int|
            0 <= p < q < r@.len() ==> key(boxes@, #[trigger] r@[p], axis as int) <= key(
                boxes@,
                #[trigger] r@[q],
                axis as int,
            ),
{
    let mut v = items;
    let n = v.len();
    let mut i: usize = 0;
    while i < n
        invariant
            axis < 3,
            n == v@.len(),
            n == items@.len(),
            i <= n,
            v@.to_multiset() == items@.to_multiset(),
            forall|k: usize| #[trigger] v@.contains(k) <==> items@.contains(k),
            forall|p: int| 0 <= p < n ==> #[trigger] v@[p] < boxes@.len(),
            forall|p: int, q: int|
                0 <= p < q < i ==> key(boxes@, #[trigger] v@[p], axis as int) <= key(
                    boxes@,
                    #[trigger] v@[q],
                    axis as int,
                ),
            forall|p: int, q: int|
                0 <= p < i <= q < n ==> key(boxes@, #[trigger] v@[p], axis as int) <= key(
                    boxes@,
                    #[trigger] v@[q],
                    axis as int,
                ),
        decreases n - i,
    {
        let mut m: usize = i;
        let mut j: usize = i + 1;
        while j < n
            invariant
                axis < 3,
                n == v@.len(),
                i <= m < n,
                i < j <= n,
                forall|p: int| 0 <= p < n ==> #[trigger] v@[p] < boxes@.len(),
                forall|q: int|
                    i <= q < j ==> key(boxes@, v@[m as int], axis as int) <= key(
                        boxes@,
                        #[trigger] v@[q],
                        axis as int,
                    ),
            decreases n - j,
        {
            if boxes[v[j]].min[axis] < boxes[v[m]].min[axis] {
                m = j;
            }
            j = j + 1;
        }
        let ghost before = v@;
        let vi = v[i];
        let vm = v[m];
        v.set(i, vm);
        v.set(m, vi);
        proof {
            assert(v@ =~= swap(before, i as int, m as int));
            lemma_swap_contains(before, i as int, m as int);
            lemma_swap_multiset(before, i as int, m as int);
            assert forall|p: int, q: int|
                0 <= p < q < i + 1 implies key(boxes@, #[trigger] v@[p], axis as int) <= key(
                boxes@,
                #[trigger] v@[q],
                axis as int,
            ) by {
                if q == i {
                    assert(v@[q] == before[m as int]);
                    assert(v@[p] == before[p]);
                }
            }
            assert forall|p: int, q: int|
                0 <= p < i + 1 <= q < n implies key(boxes@, #[trigger] v@[p], axis as int) <= key(
                boxes@,
                #[trigger] v@[q],
                axis as int,
            ) by {
                let sq = if q == m { i as int } else { q };
                assert(v@[q] == before[sq]);
                if p == i {
                    assert(v@[p] == before[m as int]);
                } else {
                    assert(v@[p] == before[p]);
                }
            }
        }
        i = i + 1;
    }
    v
}

impl BVHNode {
    /// A node over two children, caching the union of their boxes.
    pub fn new(left: BvhChild, right: BvhChild, boxes: &Vec<Aabb>) -> (r: BVHNode)
        requires
            child_wf(left, boxes@),
            child_wf(right, boxes@),
        ensures
            r.left == left,
            r.right == right,
            node_wf(r, boxes@),
    {
        let lb = child_bbox(&left, boxes);
        let rb = child_bbox(&right, boxes);
        let bbox = Aabb::surrounding_box(lb, rb);
        BVHNode { left, right, bbox }
    }

    /// A hierarchy over the distinct surfaces `items`, which must not be
    /// empty. On a randomly chosen axis, two surfaces go in ascending order of
    /// their `min` key, and more are sorted by it and split at the median.
    pub fn new_from_vec(boxes: &Vec<Aabb>, items: Vec<usize>) -> (r: BVHNode)
        requires
            items@.len() >= 1,
            items@.no_duplicates(),
            forall|i: int| 0 <= i < items@.len() ==> #[trigger] items@[i] < boxes@.len(),
        ensures
            node_wf(r, boxes@),
            node_ordered(r, boxes@),
            node_median(r),
            node_items(r) == items@.to_multiset(),
            items@.len() == 1 ==> r.left == BvhChild::Leaf(items@[0]) && r.right == BvhChild::Leaf(
                items@[0],
            ),
            envelops(r.bbox, boxes@, items@),
        decreases items@.len(),
    {
        broadcast use vstd::seq_lib::group_to_multiset_ensures, vstd::multiset::group_multiset_axioms;

        let axis = random_int(0, 2);
        let n = items.len();
        if n == 1 {
            let k = items[0];
            let r = BVHNode::new(BvhChild::Leaf(k), BvhChild::Leaf(k), boxes);
            proof {
                lemma_leaf_envelops(boxes@, k);
                assert(items@ =~= seq![k]);
                assert(items@ =~= Seq::<usize>::empty().push(k));
                lemma_join_envelops(r.bbox, boxes@[k as int], boxes@[k as int], boxes@, seq![k], seq![k], items@);
                assert(node_items(r) == Multiset::singleton(k));
                assert(items@.to_multiset() =~= Multiset::singleton(k));
                assert(split_on(r, boxes@, axis as int));
            }
            r
        } else if n == 2 {
            let a = items[0];
            let b = items[1];
            let (first, second) = if boxes[a].min[axis] <= boxes[b].min[axis] {
                (a, b)
            } else {
                (b, a)
            };
            let r = BVHNode::new(BvhChild::Leaf(first), BvhChild::Leaf(second), boxes);
            proof {
                assert(a != b) by {
                    assert(items@[0] == a && items@[1] == b);
                }
                lemma_leaf_envelops(boxes@, first);
                lemma_leaf_envelops(boxes@, second);
                assert(items@ =~= seq![a, b]);
                assert(items@ =~= Seq::<usize>::empty().push(a).push(b));
                assert forall|k: usize| #[trigger] items@.contains(k) <==> seq![first].contains(k)
                    || seq![second].contains(k) by {
                    if items@.contains(k) {
                        let p = choose|p: int| 0 <= p < 2 && items@[p] == k;
                        assert(seq![first][0] == first);
                        assert(seq![second][0] == second);
                    }
                    if seq![first].contains(k) {
                        assert(items@[0] == a && items@[1] == b);
                    }
                    if seq![second].contains(k) {
                        assert(items@[0] == a && items@[1] == b);
                    }
                }
                lemma_join_envelops(
                    r.bbox,
                    boxes@[first as int],
                    boxes@[second as int],
                    boxes@,
                    seq![first],
                    seq![second],
                    items@,
                );
                assert(r.left != r.right);
                assert(node_items(r) == Multiset::singleton(first).add(Multiset::singleton(second)));
                assert(items@.to_multiset() =~= Multiset::singleton(first).add(Multiset::singleton(second)));
                assert(node_items(r).len() == 2);
                assert(split_on(r, boxes@, axis as int));
            }
            r
        } else {
            let mut lower = sort_by_axis(boxes, items, axis);
            let ghost sorted = lower@;
            let mid = n / 2;
            let upper = lower.split_off(mid);
            assert(lower@ =~= sorted.subrange(0, mid as int));
            assert(upper@ =~= sorted.subrange(mid as int, n as int));
            assert forall|i: int| 0 <= i < lower@.len() implies #[trigger] lower@[i] < boxes@.len() by {
                assert(lower@[i] == sorted[i]);
            }
            assert forall|i: int| 0 <= i < upper@.len() implies #[trigger] upper@[i] < boxes@.len() by {
                assert(upper@[i] == sorted[i + mid]);
            }
            proof {
                items@.lemma_multiset_has_no_duplicates();
                sorted.lemma_multiset_has_no_duplicates_conv();
                lemma_no_duplicates_subrange(sorted, 0, mid as int);
                lemma_no_duplicates_subrange(sorted, mid as int, n as int);
            }
            let ghost lower_items = lower@;
            let ghost upper_items = upper@;
            let l = BVHNode::new_from_vec(boxes, lower);
            let u = BVHNode::new_from_vec(boxes, upper);
            let ghost lb = l.bbox;
            let ghost ub = u.bbox;
            let r = BVHNode::new(BvhChild::Node(Box::new(l)), BvhChild::Node(Box::new(u)), boxes);
            proof {
                assert(sorted =~= lower_items + upper_items);
                vstd::seq_lib::lemma_multiset_commutative(lower_items, upper_items);
                assert(node_items(r) == node_items(l).add(node_items(u)));
                assert(node_items(r) == items@.to_multiset());
                assert(child_items(r.left).len() == mid);
                assert forall|k: usize| #[trigger] items@.contains(k) <==> lower_items.contains(k)
                    || upper_items.contains(k) by {
                    assert(sorted.contains(k) <==> items@.contains(k));
                    if sorted.contains(k) {
                        let p = choose|p: int| 0 <= p < sorted.len() && sorted[p] == k;
                        if p < mid {
                            assert(lower_items[p] == k);
                        } else {
                            assert(upper_items[p - mid] == k);
                        }
                    }
                    if lower_items.contains(k) {
                        let p = choose|p: int| 0 <= p < lower_items.len() && lower_items[p] == k;
                        assert(sorted[p] == k);
                    }
                    if upper_items.contains(k) {
                        let p = choose|p: int| 0 <= p < upper_items.len() && upper_items[p] == k;
                        assert(sorted[p + mid] == k);
                    }
                }
                lemma_join_envelops(r.bbox, lb, ub, boxes@, lower_items, upper_items, items@);
                assert(split_on(r, boxes@, axis as int)) by {
                    assert forall|p: usize, q: usize|
                        #[trigger] child_items(r.left).contains(p) && #[trigger] child_items(
                            r.right,
                        ).contains(q) implies key(boxes@, p, axis as int) <= key(boxes@, q, axis as int) by {
                        assert(lower_items.to_multiset().contains(p));
                        assert(upper_items.to_multiset().contains(q));
                        let i = choose|i: int| 0 <= i < lower_items.len() && lower_items[i] == p;
                        let j = choose|j: int| 0 <= j < upper_items.len() && upper_items[j] == q;
                        assert(sorted[i] == p);
                        assert(sorted[j + mid] == q);
                    }
                }
            }
            r
        }
    }
}

impl BVHNode {
    /// A hierarchy over a whole list of surfaces, given by their bounding
    /// boxes; its box is the union of them all, and it holds each surface once.
    pub fn new_from_list(boxes: &Vec<Option<Aabb>>) -> (r: Result<BVHNode, BvhError>)
        ensures
            r matches Err(BvhError::Empty) <==> boxes@.len() == 0,
            r matches Err(BvhError::MissingBoundingBox(i)) ==> i < boxes@.len()
                && boxes@[i as int] is None && all_present(boxes@.subrange(0, i as int)),
            r is Ok <==> boxes@.len() > 0 && all_present(boxes@),
            r matches Ok(n) ==> {
                &&& node_wf(n, present(boxes@))
                &&& node_ordered(n, present(boxes@))
                &&& node_median(n)
                &&& is_union(n.bbox, present(boxes@))
                &&& forall|k: usize| #[trigger] node_items(n).count(k) == if k < boxes@.len() {
                    1nat
                } else {
                    0nat
                }
            },
    {
        broadcast use vstd::seq_lib::group_to_multiset_ensures;

        if boxes.len() == 0 {
            return Err(BvhError::Empty);
        }
        let mut found: Vec<Aabb> = Vec::new();
        let mut items: Vec<usize> = Vec::new();
        let mut i: usize = 0;
        while i < boxes.len()
            invariant
                i <= boxes@.len(),
                found@.len() == i,
                items@ == Seq::new(i as nat, |k: int| k as usize),
                forall|k: int| 0 <= k < i ==> (#[trigger] boxes@[k]) is Some && found@[k] == boxes@[k]->0,
            decreases boxes@.len() - i,
        {
            match boxes[i] {
                Some(b) => {
                    found.push(b);
                },
                None => {
                    assert(all_present(boxes@.subrange(0, i as int)));
                    return Err(BvhError::MissingBoundingBox(i));
                },
            }
            items.push(i);
            i = i + 1;
            assert(items@ =~= Seq::new(i as nat, |k: int| k as usize));
        }
        assert(found@ =~= present(boxes@));
        assert forall|k: usize| #[trigger] items@.contains(k) <==> k < found@.len() by {
            if k < found@.len() {
                assert(items@[k as int] == k);
            }
        }
        let ghost all = items@;
        assert(all.no_duplicates());
        let r = BVHNode::new_from_vec(&found, items);
        proof {
            lemma_envelope_is_union(r.bbox, found@, all);
            all.lemma_multiset_has_no_duplicates();
            assert forall|k: usize| #[trigger] node_items(r).count(k) == if k < boxes@.len() {
                1nat
            } else {
                0nat
            } by {
                if k >= boxes@.len() {
                    assert(!all.contains(k));
                    assert(!all.to_multiset().contains(k));
                } else {
                    assert(all.contains(k));
                }
            }
        }
        Ok(r)
    }
}

fn child_bbox(c: &BvhChild, boxes: &Vec<Aabb>) -> (r: Aabb)
    requires
        child_wf(*c, boxes@),
    ensures
        r == child_box(*c, boxes@),
{
    match c {
        BvhChild::Leaf(k) => boxes[*k],
        BvhChild::Node(n) => n.bbox,
    }
}

} // verus!
