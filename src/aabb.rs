//! Axis-aligned bounding boxes. Each coordinate is held as its order key: an
//! integer whose order is the order of the coordinates, so that the envelope
//! of boxes is computed exactly.

use vstd::prelude::*;

verus! {

/// A box from corner `min` to corner `max`, one key per axis.
#[derive(Clone, Copy)]
pub struct Aabb {
    pub min: [i64; 3],
    pub max: [i64; 3],
}

pub open spec fn min_key(a: i64, b: i64) -> i64 {
    if a <= b {
        a
    } else {
        b
    }
}

pub open spec fn max_key(a: i64, b: i64) -> i64 {
    if a >= b {
        a
    } else {
        b
    }
}

/// The least `min` key of `boxes` on axis `a`.
pub open spec fn min_of(boxes: Seq<Aabb>, a: int) -> i64
    decreases boxes.len(),
{
    if boxes.len() <= 1 {
        boxes[0].min[a]
    } else {
        min_key(min_of(boxes.drop_last(), a), boxes.last().min[a])
    }
}

/// The greatest `max` key of `boxes` on axis `a`.
pub open spec fn max_of(boxes: Seq<Aabb>, a: int) -> i64
    decreases boxes.len(),
{
    if boxes.len() <= 1 {
        boxes[0].max[a]
    } else {
        max_key(max_of(boxes.drop_last(), a), boxes.last().max[a])
    }
}

/// `b` is the envelope of the non-empty `boxes`: on each axis its `min` is
/// their least `min` and its `max` their greatest `max`.
pub open spec fn is_union(b: Aabb, boxes: Seq<Aabb>) -> bool {
    forall|a: int| 0 <= a < 3 ==> #[trigger] b.min[a] == min_of(boxes, a) && b.max[a] == max_of(boxes, a)
}

/// `b` bounds the boxes `boxes[k]` for `k` in `items`, and on each axis some
/// such box touches each of its faces.
pub open spec fn envelops(b: Aabb, boxes: Seq<Aabb>, items: Seq<usize>) -> bool {
    forall|a: int| 0 <= a < 3 ==> #[trigger] envelops_on(b, boxes, items, a)
}

/// `envelops`, on axis `a` alone.
pub open spec fn envelops_on(b: Aabb, boxes: Seq<Aabb>, items: Seq<usize>, a: int) -> bool {
    &&& forall|k: usize| #[trigger] items.contains(k) ==> b.min[a] <= boxes[k as int].min[a]
        && boxes[k as int].max[a] <= b.max[a]
    &&& exists|k: usize| #[trigger] items.contains(k) && b.min[a] == boxes[k as int].min[a]
    &&& exists|k: usize| #[trigger] items.contains(k) && b.max[a] == boxes[k as int].max[a]
}

fn lesser(a: i64, b: i64) -> (r: i64)
    ensures
        r == min_key(a, b),
{
    if a <= b {
        a
    } else {
        b
    }
}

fn greater(a: i64, b: i64) -> (r: i64)
    ensures
        r == max_key(a, b),
{
    if a >= b {
        a
    } else {
        b
    }
}

impl Aabb {
    /// On each axis the `min` key is at most the `max` key.
    pub open spec fn wf(&self) -> bool {
        forall|a: int| 0 <= a < 3 ==> #[trigger] self.min[a] <= self.max[a]
    }

    pub fn new(min: [i64; 3], max: [i64; 3]) -> (r: Aabb)
        ensures
            r.min == min,
            r.max == max,
    {
        Aabb { min, max }
    }

    /// The smallest box that holds both boxes.
    pub fn surrounding_box(box0: Aabb, box1: Aabb) -> (r: Aabb)
        ensures
            forall|a: int|
                0 <= a < 3 ==> #[trigger] r.min[a] == min_key(box0.min[a], box1.min[a]) && r.max[a]
                    == max_key(box0.max[a], box1.max[a]),
            box0.wf() && box1.wf() ==> r.wf(),
    {
        let small: [i64; 3] = [
            lesser(box0.min[0], box1.min[0]),
            lesser(box0.min[1], box1.min[1]),
            lesser(box0.min[2], box1.min[2]),
        ];
        let big: [i64; 3] = [
            greater(box0.max[0], box1.max[0]),
            greater(box0.max[1], box1.max[1]),
            greater(box0.max[2], box1.max[2]),
        ];
        let r = Aabb::new(small, big);
        assert forall|b: int| 0 <= b < 3 implies #[trigger] r.min[b] == min_key(box0.min[b], box1.min[b])
            && r.max[b] == max_key(box0.max[b], box1.max[b]) by {
            if b == 0 {
            } else if b == 1 {
            } else {
            }
        }
        assert(box0.wf() && box1.wf() ==> r.wf()) by {
            if box0.wf() && box1.wf() {
                assert forall|b: int| 0 <= b < 3 implies #[trigger] r.min[b] <= r.max[b] by {
                    assert(box0.min[b] <= box0.max[b]);
                    assert(box1.min[b] <= box1.max[b]);
                }
            }
        }
        r
    }
}

proof fn lemma_min_of_attained(boxes: Seq<Aabb>, a: int)
    requires
        boxes.len() >= 1,
        0 <= a < 3,
    ensures
        forall|i: int| 0 <= i < boxes.len() ==> min_of(boxes, a) <= #[trigger] boxes[i].min[a],
        exists|i: int| 0 <= i < boxes.len() && min_of(boxes, a) == #[trigger] boxes[i].min[a],
        forall|i: int| 0 <= i < boxes.len() ==> max_of(boxes, a) >= #[trigger] boxes[i].max[a],
        exists|i: int| 0 <= i < boxes.len() && max_of(boxes, a) == #[trigger] boxes[i].max[a],
    decreases boxes.len(),
{
    if boxes.len() == 1 {
        assert(min_of(boxes, a) == boxes[0].min[a]);
        assert(max_of(boxes, a) == boxes[0].max[a]);
    } else {
        let init = boxes.drop_last();
        lemma_min_of_attained(init, a);
        assert forall|i: int| 0 <= i < boxes.len() - 1 implies boxes[i] == #[trigger] init[i] by {}
        let n = boxes.len() - 1;
        if min_of(init, a) <= boxes.last().min[a] {
            let j = choose|j: int| 0 <= j < init.len() && min_of(init, a) == #[trigger] init[j].min[a];
            assert(boxes[j] == init[j]);
            assert(min_of(boxes, a) == boxes[j].min[a]);
        } else {
            assert(boxes[n] == boxes.last());
            assert(min_of(boxes, a) == boxes[n].min[a]);
        }
        if max_of(init, a) >= boxes.last().max[a] {
            let j = choose|j: int| 0 <= j < init.len() && max_of(init, a) == #[trigger] init[j].max[a];
            assert(boxes[j] == init[j]);
            assert(max_of(boxes, a) == boxes[j].max[a]);
        } else {
            assert(boxes[n] == boxes.last());
            assert(max_of(boxes, a) == boxes[n].max[a]);
        }
        assert forall|i: int| 0 <= i < boxes.len() implies min_of(boxes, a) <= #[trigger] boxes[i].min[a] by {
            if i < n {
                assert(boxes[i] == init[i]);
            }
        }
        assert forall|i: int| 0 <= i < boxes.len() implies max_of(boxes, a) >= #[trigger] boxes[i].max[a] by {
            if i < n {
                assert(boxes[i] == init[i]);
            }
        }
    }
}

/// A box that envelops every index `0..n` of `n >= 1` boxes is their union.
pub proof fn lemma_envelope_is_union(b: Aabb, boxes: Seq<Aabb>, items: Seq<usize>)
    requires
        1 <= boxes.len() <= usize::MAX,
        envelops(b, boxes, items),
        forall|k: usize| #[trigger] items.contains(k) <==> k < boxes.len(),
    ensures
        is_union(b, boxes),
{
    assert forall|a: int| 0 <= a < 3 implies #[trigger] b.min[a] == min_of(boxes, a) && b.max[a]
        == max_of(boxes, a) by {
        lemma_min_of_attained(boxes, a);
        assert(envelops_on(b, boxes, items, a));
        let j = choose|j: int| 0 <= j < boxes.len() && min_of(boxes, a) == #[trigger] boxes[j].min[a];
        assert(items.contains(j as usize));
        assert(boxes[(j as usize) as int] == boxes[j]);
        let k = choose|k: usize| #[trigger] items.contains(k) && b.min[a] == boxes[k as int].min[a];
        assert(b.min[a] <= boxes[j].min[a]);
        assert(min_of(boxes, a) <= boxes[k as int].min[a]);
        let j2 = choose|j: int| 0 <= j < boxes.len() && max_of(boxes, a) == #[trigger] boxes[j].max[a];
        assert(items.contains(j2 as usize));
        assert(boxes[(j2 as usize) as int] == boxes[j2]);
        let k2 = choose|k: usize| #[trigger] items.contains(k) && b.max[a] == boxes[k as int].max[a];
        assert(b.max[a] >= boxes[j2].max[a]);
        assert(max_of(boxes, a) >= boxes[k2 as int].max[a]);
    }
}

/// Every entry of `s` is present.
pub open spec fn all_present(s: Seq<Option<Aabb>>) -> bool {
    forall|i: int| 0 <= i < s.len() ==> (#[trigger] s[i]) is Some
}

/// The boxes of `s`, whose entries are all present.
pub open spec fn present(s: Seq<Option<Aabb>>) -> Seq<Aabb> {
    Seq::new(s.len(), |i: int| s[i]->0)
}

/// The union of a list of boxes: none when the list is empty or one of them
/// is missing (an unbounded surface).
pub fn union_all(boxes: &Vec<Option<Aabb>>) -> (r: Option<Aabb>)
    ensures
        r is Some <==> boxes@.len() > 0 && all_present(boxes@),
        r is Some ==> is_union(r->0, present(boxes@)),
{
    if boxes.len() == 0 {
        return None;
    }
    let mut acc = match boxes[0] {
        Some(b) => b,
        None => {
            return None;
        },
    };
    proof {
        let p1 = present(boxes@.subrange(0, 1));
        assert forall|a: int| 0 <= a < 3 implies #[trigger] acc.min[a] == min_of(p1, a) && acc.max[a]
            == max_of(p1, a) by {
            assert(p1[0] == acc);
        }
    }
    let mut i: usize = 1;
    while i < boxes.len()
        invariant
            1 <= i <= boxes@.len(),
            forall|j: int| 0 <= j < i ==> (#[trigger] boxes@[j]) is Some,
            is_union(acc, present(boxes@.subrange(0, i as int))),
        decreases boxes@.len() - i,
    {
        let b = match boxes[i] {
            Some(b) => b,
            None => {
                return None;
            },
        };
        let ghost prev = present(boxes@.subrange(0, i as int));
        acc = Aabb::surrounding_box(acc, b);
        i = i + 1;
        proof {
            let cur = present(boxes@.subrange(0, i as int));
            assert(cur.drop_last() =~= prev);
            assert(cur.last() == b);
            assert forall|a: int| 0 <= a < 3 implies #[trigger] acc.min[a] == min_of(cur, a)
                && acc.max[a] == max_of(cur, a) by {
                assert(prev.len() >= 1);
            }
        }
    }
    assert(boxes@.subrange(0, i as int) =~= boxes@);
    Some(acc)
}

} // verus!
