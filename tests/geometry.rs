use raytracer::aabb::{union_all, Aabb};
use raytracer::bvh::{BVHNode, BvhChild, BvhError};

fn cube(lo: i64, hi: i64) -> Aabb {
    Aabb::new([lo, lo, lo], [hi, hi, hi])
}

fn leaves(c: &BvhChild, out: &mut Vec<usize>) {
    match c {
        BvhChild::Leaf(k) => out.push(*k),
        BvhChild::Node(n) => {
            leaves(&n.left, out);
            leaves(&n.right, out);
        }
    }
}

fn check_cached_boxes(c: &BvhChild, boxes: &[Aabb]) -> Aabb {
    match c {
        BvhChild::Leaf(k) => boxes[*k],
        BvhChild::Node(n) => {
            let l = check_cached_boxes(&n.left, boxes);
            let r = check_cached_boxes(&n.right, boxes);
            let u = Aabb::surrounding_box(l, r);
            assert_eq!(n.bbox.min, u.min);
            assert_eq!(n.bbox.max, u.max);
            n.bbox
        }
    }
}

#[test]
fn surrounding_box_takes_componentwise_extremes() {
    let a = Aabb::new([0, 5, -3], [1, 6, 2]);
    let b = Aabb::new([-2, 7, -1], [0, 9, 4]);
    let u = Aabb::surrounding_box(a, b);
    assert_eq!(u.min, [-2, 5, -3]);
    assert_eq!(u.max, [1, 9, 4]);
}

#[test]
fn union_of_empty_list_is_none() {
    assert!(union_all(&vec![]).is_none());
}

#[test]
fn union_with_unbounded_member_is_none() {
    assert!(union_all(&vec![Some(cube(0, 1)), None]).is_none());
}

#[test]
fn union_of_boxes() {
    let u = union_all(&vec![Some(cube(0, 1)), Some(Aabb::new([-5, 2, 0], [0, 3, 8]))]).unwrap();
    assert_eq!(u.min, [-5, 0, 0]);
    assert_eq!(u.max, [1, 3, 8]);
}

#[test]
fn bvh_of_empty_list_fails() {
    assert!(matches!(BVHNode::new_from_list(&vec![]), Err(BvhError::Empty)));
}

#[test]
fn bvh_reports_first_unbounded_surface() {
    let r = BVHNode::new_from_list(&vec![Some(cube(0, 1)), None, None]);
    assert!(matches!(r, Err(BvhError::MissingBoundingBox(1))));
}

#[test]
fn bvh_of_one_surface_uses_it_twice() {
    let n = BVHNode::new_from_list(&vec![Some(cube(2, 3))]).ok().unwrap();
    assert!(matches!(n.left, BvhChild::Leaf(0)));
    assert!(matches!(n.right, BvhChild::Leaf(0)));
    assert_eq!(n.bbox.min, [2, 2, 2]);
    assert_eq!(n.bbox.max, [3, 3, 3]);
}

#[test]
fn bvh_of_two_orders_by_min_key() {
    let boxes = vec![Some(cube(5, 6)), Some(cube(-1, 0))];
    let n = BVHNode::new_from_list(&boxes).ok().unwrap();
    assert!(matches!(n.left, BvhChild::Leaf(1)));
    assert!(matches!(n.right, BvhChild::Leaf(0)));
}

#[test]
fn bvh_root_box_is_union_of_all_inputs() {
    let mut boxes = Vec::new();
    for i in 0..37i64 {
        let x = (i * 17) % 23 - 11;
        boxes.push(Aabb::new([x, -i, 2 * i], [x + 3, -i + 1, 2 * i + 5]));
    }
    let opt: Vec<Option<Aabb>> = boxes.iter().map(|b| Some(*b)).collect();
    let expected = union_all(&opt).unwrap();
    let n = BVHNode::new_from_list(&opt).ok().unwrap();
    assert_eq!(n.bbox.min, expected.min);
    assert_eq!(n.bbox.max, expected.max);
    assert_eq!(n.bbox.min, [-11, -36, 0]);
    assert_eq!(n.bbox.max, [14, 1, 77]);
    let root = BvhChild::Node(Box::new(n));
    check_cached_boxes(&root, &boxes);
    let mut seen = Vec::new();
    leaves(&root, &mut seen);
    seen.sort();
    seen.dedup();
    assert_eq!(seen, (0..37).collect::<Vec<usize>>());
}

#[test]
fn sort_by_axis_orders_min_keys() {
    let boxes = vec![
        Aabb::new([3, 0, 9], [4, 1, 10]),
        Aabb::new([1, 5, 2], [2, 6, 3]),
        Aabb::new([2, -4, 7], [3, -3, 8]),
    ];
    let by_x = raytracer::bvh::sort_by_axis(&boxes, vec![0, 1, 2], 0);
    assert_eq!(by_x, vec![1, 2, 0]);
    let by_y = raytracer::bvh::sort_by_axis(&boxes, vec![0, 1, 2], 1);
    assert_eq!(by_y, vec![2, 0, 1]);
    let by_z = raytracer::bvh::sort_by_axis(&boxes, vec![0, 1, 2], 2);
    assert_eq!(by_z, vec![1, 2, 0]);
}

fn keys_under(c: &BvhChild, boxes: &[Aabb], axis: usize) -> Vec<i64> {
    let mut ks = Vec::new();
    leaves(c, &mut ks);
    ks.into_iter().map(|k| boxes[k].min[axis]).collect()
}

fn check_splits(c: &BvhChild, boxes: &[Aabb]) {
    if let BvhChild::Node(n) = c {
        let ordered = (0..3).any(|a| {
            let l = keys_under(&n.left, boxes, a);
            let r = keys_under(&n.right, boxes, a);
            l.iter().max().unwrap() <= r.iter().min().unwrap()
        });
        assert!(ordered);
        check_splits(&n.left, boxes);
        check_splits(&n.right, boxes);
    }
}

#[test]
fn bvh_splits_are_ordered_on_some_axis() {
    let mut boxes = Vec::new();
    for i in 0..50i64 {
        let x = (i * 31) % 47;
        let y = (i * 13) % 29;
        let z = (i * 7) % 11;
        boxes.push(Aabb::new([x, y, z], [x + 2, y + 2, z + 2]));
    }
    let opt: Vec<Option<Aabb>> = boxes.iter().map(|b| Some(*b)).collect();
    let n = BVHNode::new_from_list(&opt).ok().unwrap();
    let root = BvhChild::Node(Box::new(n));
    check_splits(&root, &boxes);
    let mut seen = Vec::new();
    leaves(&root, &mut seen);
    // a span of one surface names it twice; every surface appears
    seen.sort();
    seen.dedup();
    assert_eq!(seen.len(), 50);
}

// The surfaces under a child, a node over one surface counting it once.
fn items_under(c: &BvhChild) -> Vec<usize> {
    match c {
        BvhChild::Leaf(k) => vec![*k],
        BvhChild::Node(n) => match (&n.left, &n.right) {
            (BvhChild::Leaf(a), BvhChild::Leaf(b)) if a == b => vec![*a],
            (l, r) => {
                let mut v = items_under(l);
                v.extend(items_under(r));
                v
            }
        },
    }
}

fn check_median(c: &BvhChild) {
    if let BvhChild::Node(n) = c {
        let m = items_under(c).len();
        match m {
            1 => assert!(matches!((&n.left, &n.right), (BvhChild::Leaf(a), BvhChild::Leaf(b)) if a == b)),
            2 => assert!(matches!((&n.left, &n.right), (BvhChild::Leaf(a), BvhChild::Leaf(b)) if a != b)),
            _ => {
                assert!(matches!(n.left, BvhChild::Node(_)) && matches!(n.right, BvhChild::Node(_)));
                assert_eq!(items_under(&n.left).len(), m / 2);
            }
        }
        check_median(&n.left);
        check_median(&n.right);
    }
}

#[test]
fn bvh_is_a_median_split_holding_each_surface_once() {
    for count in 1..40i64 {
        let boxes: Vec<Aabb> = (0..count).map(|i| cube((i * 37) % 41, (i * 37) % 41 + 1)).collect();
        let opt: Vec<Option<Aabb>> = boxes.iter().map(|b| Some(*b)).collect();
        let root = BvhChild::Node(Box::new(BVHNode::new_from_list(&opt).ok().unwrap()));
        let mut items = items_under(&root);
        items.sort();
        assert_eq!(items, (0..count as usize).collect::<Vec<usize>>());
        check_median(&root);
    }
}

#[test]
fn sort_by_axis_keeps_repeated_items() {
    let boxes = vec![cube(3, 4), cube(1, 2)];
    assert_eq!(raytracer::bvh::sort_by_axis(&boxes, vec![0, 1, 0, 1], 0), vec![1, 1, 0, 0]);
}
