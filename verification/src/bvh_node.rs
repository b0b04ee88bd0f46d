//! The recursive bounding-volume hierarchy: every node bounds a range of the
//! primitive order and has two children, each a primitive or a node.  A range
//! of one primitive gets that primitive as both children, a range of two
//! gets the two; a longer range is sorted by key along the split axis and
//! halved.
//!
//! Primitives are named by their index into the caller's list; bounding boxes
//! are an opaque type `B`.

use vstd::prelude::*;
use crate::bvh::{key_at, keyed, keyed_on_all_axes, sort_primitives, sorted_by_key};

verus! {

broadcast use {
    vstd::seq_lib::group_to_multiset_ensures,
    vstd::multiset::group_multiset_axioms,
    vstd::seq_lib::lemma_multiset_commutative,
};

/// A child of a node: a primitive, by its index, or a further node.
pub enum Child<B> {
    Primitive(usize),
    Node(Box<BvhNode<B>>),
}

/// A node of the hierarchy and the box that bounds both children.
pub struct BvhNode<B> {
    pub left: Child<B>,
    pub right: Child<B>,
    pub bbox: B,
}

/// Every key in positions `start..mid` of the order is at most every key in
/// positions `mid..end`.
pub open spec fn split_at(keys: Seq<u32>, order: Seq<usize>, start: int, mid: int, end: int) -> bool {
    forall|a: int, b: int|
        start <= a < mid <= b < end ==> #[trigger] key_at(keys, order, a) <= #[trigger] key_at(
            keys,
            order,
            b,
        )
}

/// `bbox` is the box `bounds` reported for positions `start..end` of an
/// order that holds there the same primitives as `order`; for more than two
/// primitives, the keys of the lower half of `order` on the axis it reported
/// are at most those of the upper half.
pub open spec fn boxed_by<B, F: Fn(&Vec<usize>, usize, usize) -> (B, usize)>(
    bbox: B,
    keys: Seq<Vec<u32>>,
    order: Seq<usize>,
    start: int,
    end: int,
    bounds: &F,
) -> bool {
    exists|v: Vec<usize>, r: (B, usize)|
        #![trigger bounds.ensures((&v, start as usize, end as usize), r)]
        {
            &&& v@.subrange(start, end).to_multiset() == order.subrange(start, end).to_multiset()
            &&& bounds.ensures((&v, start as usize, end as usize), r)
            &&& r.0 == bbox
            &&& end - start > 2 ==> 0 <= r.1 < keys.len() && split_at(
                keys[r.1 as int]@,
                order,
                start,
                start + (end - start) / 2,
                end,
            )
        }
}

/// `node` is the hierarchy over positions `start..end` of `order`: its box
/// is the one `bounds` reported for those positions ([`boxed_by`]); one
/// primitive is both children, two primitives are the two children in order,
/// and a longer range is split at its middle `start + (end - start) / 2`
/// along the reported axis, each half under a child node built the same way.
pub open spec fn built_over<B, F: Fn(&Vec<usize>, usize, usize) -> (B, usize)>(
    node: BvhNode<B>,
    keys: Seq<Vec<u32>>,
    order: Seq<usize>,
    start: int,
    end: int,
    bounds: &F,
) -> bool
    decreases end - start,
{
    let span = end - start;
    let mid = start + span / 2;
    if !boxed_by(node.bbox, keys, order, start, end, bounds) {
        false
    } else if span == 1 {
        node.left == Child::<B>::Primitive(order[start]) && node.right == Child::<B>::Primitive(
            order[start],
        )
    } else if span == 2 {
        node.left == Child::<B>::Primitive(order[start]) && node.right == Child::<B>::Primitive(
            order[start + 1],
        )
    } else if span > 2 {
        match (node.left, node.right) {
            (Child::Node(l), Child::Node(r)) => {
                &&& built_over(*l, keys, order, start, mid, bounds)
                &&& built_over(*r, keys, order, mid, end, bounds)
            },
            _ => false,
        }
    } else {
        false
    }
}

/// Whether primitive `p` is a child somewhere under `node`.
pub open spec fn has_leaf<B>(node: BvhNode<B>, p: usize) -> bool
    decreases node, 1nat,
{
    child_has_leaf(node.left, p) || child_has_leaf(node.right, p)
}

/// Whether `child` is primitive `p` or a node that has it as a leaf.
pub open spec fn child_has_leaf<B>(child: Child<B>, p: usize) -> bool
    decreases child, 0nat,
{
    match child {
        Child::Primitive(q) => q == p,
        Child::Node(n) => has_leaf(*n, p),
    }
}

/// The leaves of a hierarchy built over positions `start..end` of the
/// primitive order are exactly the primitives at those positions.
pub proof fn lemma_built_leaves<B, F: Fn(&Vec<usize>, usize, usize) -> (B, usize)>(
    node: BvhNode<B>,
    keys: Seq<Vec<u32>>,
    order: Seq<usize>,
    start: int,
    end: int,
    bounds: &F,
)
    requires
        built_over(node, keys, order, start, end, bounds),
    ensures
        forall|i: int| start <= i < end ==> #[trigger] has_leaf(node, order[i]),
        forall|p: usize| #[trigger] has_leaf(node, p) ==> exists|i: int| start <= i < end && order[i] == p,
    decreases end - start,
{
    let span = end - start;
    let mid = start + span / 2;
    if span > 2 {
        match (node.left, node.right) {
            (Child::Node(l), Child::Node(r)) => {
                lemma_built_leaves(*l, keys, order, start, mid, bounds);
                lemma_built_leaves(*r, keys, order, mid, end, bounds);
                assert forall|i: int| start <= i < end implies #[trigger] has_leaf(node, order[i]) by {
                    if i < mid {
                        assert(has_leaf(*l, order[i]));
                    } else {
                        assert(has_leaf(*r, order[i]));
                    }
                }
                assert forall|p: usize| #[trigger] has_leaf(node, p) implies exists|i: int|
                    start <= i < end && order[i] == p by {
                    if has_leaf(*l, p) {
                        let i = choose|i: int| start <= i < mid && order[i] == p;
                        assert(start <= i < end && order[i] == p);
                    } else {
                        assert(has_leaf(*r, p));
                        let i = choose|i: int| mid <= i < end && order[i] == p;
                        assert(start <= i < end && order[i] == p);
                    }
                }
            },
            _ => {},
        }
    } else if span == 2 {
        assert forall|p: usize| #[trigger] has_leaf(node, p) implies exists|i: int|
            start <= i < end && order[i] == p by {
            if p == order[start] {
                assert(order[start] == p);
            } else {
                assert(order[start + 1] == p);
            }
        }
    } else {
        assert forall|p: usize| #[trigger] has_leaf(node, p) implies exists|i: int|
            start <= i < end && order[i] == p by {
            assert(order[start] == p);
        }
    }
}

/// What a walk of `node` finds over the ray range `range`: nothing when
/// `box_hit` rejects the node's box; otherwise the left child is tried over
/// `range`, the right child over `range` narrowed by the left child's hit
/// (if any), and the right child's hit is taken over the left child's.
pub open spec fn node_hit<B, R, H>(
    node: BvhNode<B>,
    range: R,
    box_hit: spec_fn(B, R) -> bool,
    prim_hit: spec_fn(usize, R) -> Option<H>,
    narrow: spec_fn(R, H) -> R,
) -> Option<H>
    decreases node, 1nat,
{
    if !box_hit(node.bbox, range) {
        None
    } else {
        let left = child_hit(node.left, range, box_hit, prim_hit, narrow);
        let range2 = match left {
            Some(h) => narrow(range, h),
            None => range,
        };
        let right = child_hit(node.right, range2, box_hit, prim_hit, narrow);
        if right is Some {
            right
        } else {
            left
        }
    }
}

/// What a walk of `child` finds over `range`: a primitive is tested with
/// `prim_hit`, a node is walked as in [`node_hit`].
pub open spec fn child_hit<B, R, H>(
    child: Child<B>,
    range: R,
    box_hit: spec_fn(B, R) -> bool,
    prim_hit: spec_fn(usize, R) -> Option<H>,
    narrow: spec_fn(R, H) -> R,
) -> Option<H>
    decreases child, 0nat,
{
    match child {
        Child::Primitive(p) => prim_hit(p, range),
        Child::Node(n) => node_hit(*n, range, box_hit, prim_hit, narrow),
    }
}

/// A walk of a node whose box is rejected finds nothing, and a hit it finds
/// is the hit of one of the node's primitives over some part of the range.
pub proof fn lemma_node_hit_from_leaf<B, R, H>(
    node: BvhNode<B>,
    range: R,
    box_hit: spec_fn(B, R) -> bool,
    prim_hit: spec_fn(usize, R) -> Option<H>,
    narrow: spec_fn(R, H) -> R,
)
    ensures
        !box_hit(node.bbox, range) ==> node_hit(node, range, box_hit, prim_hit, narrow) is None,
        node_hit(node, range, box_hit, prim_hit, narrow) matches Some(h) ==> exists|p: usize, r: R|
            #[trigger] has_leaf(node, p) && #[trigger] prim_hit(p, r) === Some(h),
    decreases node, 1nat,
{
    if box_hit(node.bbox, range) {
        let left = child_hit(node.left, range, box_hit, prim_hit, narrow);
        let range2 = match left {
            Some(h) => narrow(range, h),
            None => range,
        };
        lemma_child_hit_from_leaf(node.left, range, box_hit, prim_hit, narrow);
        lemma_child_hit_from_leaf(node.right, range2, box_hit, prim_hit, narrow);
        if let Some(h) = node_hit(node, range, box_hit, prim_hit, narrow) {
            if child_hit(node.right, range2, box_hit, prim_hit, narrow) is Some {
                let (p, r) = choose|p: usize, r: R|
                    #[trigger] child_has_leaf(node.right, p) && #[trigger] prim_hit(p, r) === Some(h);
                assert(has_leaf(node, p));
            } else {
                let (p, r) = choose|p: usize, r: R|
                    #[trigger] child_has_leaf(node.left, p) && #[trigger] prim_hit(p, r) === Some(h);
                assert(has_leaf(node, p));
            }
        }
    }
}

/// [`lemma_node_hit_from_leaf`] for a child.
pub proof fn lemma_child_hit_from_leaf<B, R, H>(
    child: Child<B>,
    range: R,
    box_hit: spec_fn(B, R) -> bool,
    prim_hit: spec_fn(usize, R) -> Option<H>,
    narrow: spec_fn(R, H) -> R,
)
    ensures
        child_hit(child, range, box_hit, prim_hit, narrow) matches Some(h) ==> exists|p: usize, r: R|
            #[trigger] child_has_leaf(child, p) && #[trigger] prim_hit(p, r) === Some(h),
    decreases child, 0nat,
{
    match child {
        Child::Primitive(p) => {
            assert(child_hit(child, range, box_hit, prim_hit, narrow) == prim_hit(p, range));
            assert(child_has_leaf(child, p));
            if prim_hit(p, range) is Some {
                let h = prim_hit(p, range)->0;
                assert(prim_hit(p, range) == Some(h));
                assert(exists|q: usize, r: R| #[trigger] child_has_leaf(child, q) && #[trigger] prim_hit(q, r) === Some(h));
            }
        },
        Child::Node(n) => {
            lemma_node_hit_from_leaf(*n, range, box_hit, prim_hit, narrow);
            if let Some(h) = node_hit(*n, range, box_hit, prim_hit, narrow) {
                let (p, r) = choose|p: usize, r: R|
                    #[trigger] has_leaf(*n, p) && #[trigger] prim_hit(p, r) === Some(h);
                assert(child_has_leaf(child, p));
            }
        },
    }
}

/// Whether a hierarchy holds depends only on the positions it is built over.
pub proof fn lemma_built_over_frame<B, F: Fn(&Vec<usize>, usize, usize) -> (B, usize)>(
    node: BvhNode<B>,
    keys: Seq<Vec<u32>>,
    o1: Seq<usize>,
    o2: Seq<usize>,
    start: int,
    end: int,
    bounds: &F,
)
    requires
        0 <= start <= end <= o1.len(),
        end <= o2.len(),
        forall|i: int| start <= i < end ==> o1[i] == o2[i],
    ensures
        built_over(node, keys, o1, start, end, bounds) == built_over(node, keys, o2, start, end, bounds),
    decreases end - start,
{
    let span = end - start;
    let mid = start + span / 2;
    assert(o1.subrange(start, end) =~= o2.subrange(start, end));
    assert forall|a: int| 0 <= a < keys.len() implies split_at(keys[a]@, o1, start, mid, end)
        == split_at(keys[a]@, o2, start, mid, end) by {
        assert forall|x: int, y: int| start <= x < mid <= y < end implies key_at(keys[a]@, o1, x)
            == key_at(keys[a]@, o2, x) && key_at(keys[a]@, o1, y) == key_at(keys[a]@, o2, y) by {}
    }
    if boxed_by(node.bbox, keys, o1, start, end, bounds) {
        let (v, r) = choose|v: Vec<usize>, r: (B, usize)|
            #![trigger bounds.ensures((&v, start as usize, end as usize), r)]
            {
                &&& v@.subrange(start, end).to_multiset() == o1.subrange(start, end).to_multiset()
                &&& bounds.ensures((&v, start as usize, end as usize), r)
                &&& r.0 == node.bbox
                &&& end - start > 2 ==> 0 <= r.1 < keys.len() && split_at(
                    keys[r.1 as int]@,
                    o1,
                    start,
                    start + (end - start) / 2,
                    end,
                )
            };
        assert(bounds.ensures((&v, start as usize, end as usize), r));
    }
    if boxed_by(node.bbox, keys, o2, start, end, bounds) {
        let (v, r) = choose|v: Vec<usize>, r: (B, usize)|
            #![trigger bounds.ensures((&v, start as usize, end as usize), r)]
            {
                &&& v@.subrange(start, end).to_multiset() == o2.subrange(start, end).to_multiset()
                &&& bounds.ensures((&v, start as usize, end as usize), r)
                &&& r.0 == node.bbox
                &&& end - start > 2 ==> 0 <= r.1 < keys.len() && split_at(
                    keys[r.1 as int]@,
                    o2,
                    start,
                    start + (end - start) / 2,
                    end,
                )
            };
        assert(bounds.ensures((&v, start as usize, end as usize), r));
    }
    if span > 2 {
        match (node.left, node.right) {
            (Child::Node(l), Child::Node(r)) => {
                lemma_built_over_frame(*l, keys, o1, o2, start, mid, bounds);
                lemma_built_over_frame(*r, keys, o1, o2, mid, end, bounds);
            },
            _ => {},
        }
    }
}

/// A reordering of `old` that leaves every position outside `start..end` in
/// place keeps the same primitives inside `start..end`.
pub proof fn lemma_range_multiset(old: Seq<usize>, new: Seq<usize>, start: int, end: int)
    requires
        0 <= start <= end <= old.len(),
        new.len() == old.len(),
        new.to_multiset() == old.to_multiset(),
        forall|i: int| 0 <= i < old.len() && !(start <= i < end) ==> new[i] == old[i],
    ensures
        new.subrange(start, end).to_multiset() == old.subrange(start, end).to_multiset(),
{
    let len = old.len() as int;
    assert(old =~= old.subrange(0, start) + old.subrange(start, end) + old.subrange(end, len));
    assert(new =~= new.subrange(0, start) + new.subrange(start, end) + new.subrange(end, len));
    assert(new.subrange(0, start) =~= old.subrange(0, start));
    assert(new.subrange(end, len) =~= old.subrange(end, len));
    assert((old.subrange(0, start) + old.subrange(start, end)).to_multiset() =~= old.subrange(
        0,
        start,
    ).to_multiset().add(old.subrange(start, end).to_multiset()));
    assert((new.subrange(0, start) + new.subrange(start, end)).to_multiset() =~= new.subrange(
        0,
        start,
    ).to_multiset().add(new.subrange(start, end).to_multiset()));
    assert((old.subrange(0, start) + old.subrange(start, end) + old.subrange(end, len)).to_multiset()
        =~= (old.subrange(0, start) + old.subrange(start, end)).to_multiset().add(
        old.subrange(end, len).to_multiset(),
    ));
    assert((new.subrange(0, start) + new.subrange(start, end) + new.subrange(end, len)).to_multiset()
        =~= (new.subrange(0, start) + new.subrange(start, end)).to_multiset().add(
        new.subrange(end, len).to_multiset(),
    ));
    let a = old.subrange(0, start);
    let b = old.subrange(start, end);
    let c = old.subrange(end, len);
    let b2 = new.subrange(start, end);
    assert(old.to_multiset() == (a + b + c).to_multiset());
    assert(new.to_multiset() == (a + b2 + c).to_multiset());
    assert forall|v: usize| #[trigger] b2.to_multiset().count(v) == b.to_multiset().count(v) by {
        assert(old.to_multiset().count(v) == a.to_multiset().count(v) + b.to_multiset().count(v)
            + c.to_multiset().count(v));
        assert(new.to_multiset().count(v) == a.to_multiset().count(v) + b2.to_multiset().count(v)
            + c.to_multiset().count(v));
    }
    assert(b2.to_multiset() =~= b.to_multiset());
}

/// A position of a range holds a primitive that a range with the same
/// primitives holds at some position too.
pub proof fn lemma_from_range(s: Seq<usize>, t: Seq<usize>, lo: int, hi: int, i: int)
    requires
        0 <= lo <= i < hi <= s.len(),
        hi <= t.len(),
        s.subrange(lo, hi).to_multiset() == t.subrange(lo, hi).to_multiset(),
    ensures
        exists|j: int| lo <= j < hi && t[j] == s[i],
{
    let x = s[i];
    assert(s.subrange(lo, hi)[i - lo] == x);
    assert(s.subrange(lo, hi).contains(x));
    assert(t.subrange(lo, hi).to_multiset().count(x) > 0);
    assert(t.subrange(lo, hi).contains(x));
    let k = choose|k: int| 0 <= k < t.subrange(lo, hi).len() && t.subrange(lo, hi)[k] == x;
    assert(t[lo + k] == x);
}

/// A reordering keeps every position keyed on every axis.
proof fn lemma_keyed_reordered(keys: Seq<Vec<u32>>, old: Seq<usize>, new: Seq<usize>)
    requires
        keyed_on_all_axes(keys, old),
        new.to_multiset() == old.to_multiset(),
    ensures
        keyed_on_all_axes(keys, new),
{
    assert forall|a: int, i: int| 0 <= a < keys.len() && 0 <= i < new.len() implies (
    #[trigger] new[i] as int) < #[trigger] keys[a].len() by {
        assert(new.contains(new[i]));
        assert(old.to_multiset().count(new[i]) > 0);
        assert(old.contains(new[i]));
        let j = choose|j: int| 0 <= j < old.len() && old[j] == new[i];
        assert(old[j] < keys[a].len());
    }
}

impl<B> BvhNode<B> {
    /// Builds the hierarchy over positions `start..end` of `order`.  Its box
    /// and split axis are what `bounds(order, start, end)` reports for the
    /// order as it is on entry; a range of more than two primitives is then
    /// sorted by key on that axis and each half is built in turn.
    pub fn new<F: Fn(&Vec<usize>, usize, usize) -> (B, usize)>(
        order: &mut Vec<usize>,
        keys: &Vec<Vec<u32>>,
        start: usize,
        end: usize,
        bounds: &F,
    ) -> (node: Self)
        requires
            start < end <= old(order).len(),
            keyed_on_all_axes(keys@, old(order)@),
            forall|v: &Vec<usize>, s: usize, e: usize| #[trigger] bounds.requires((v, s, e)),
            forall|v: &Vec<usize>, s: usize, e: usize, r: (B, usize)|
                #[trigger] bounds.ensures((v, s, e), r) ==> r.1 < keys.len(),
        ensures
            final(order).len() == old(order).len(),
            final(order)@.subrange(start as int, end as int).to_multiset() == old(order)@.subrange(
                start as int,
                end as int,
            ).to_multiset(),
            forall|i: int|
                0 <= i < old(order).len() && !(start <= i < end) ==> #[trigger] final(order)@[i]
                    == old(order)@[i],
            end - start <= 2 ==> final(order)@ == old(order)@,
            keyed_on_all_axes(keys@, final(order)@),
            built_over(node, keys@, final(order)@, start as int, end as int, bounds),
            exists|r: (B, usize)|
                #[trigger] bounds.ensures((&*old(order), start, end), r) && node.bbox == r.0 && (end
                    - start > 2 ==> split_at(
                    keys@[r.1 as int]@,
                    final(order)@,
                    start as int,
                    start + (end - start) / 2,
                    end as int,
                )),
        decreases end - start,
    {
        let ghost entry = order@;
        let ghost entry_vec: Vec<usize> = *order;
        let (bbox, axis) = bounds(&*order, start, end);
        proof {
            assert(bounds.ensures((&entry_vec, start, end), (bbox, axis)));
        }
        let span = end - start;
        proof {
            assert(entry_vec@ == order@);
            assert(bounds.ensures((&entry_vec, (start as int) as usize, (end as int) as usize), (bbox, axis)));
            if span <= 2 {
                assert(boxed_by(bbox, keys@, order@, start as int, end as int, bounds));
            }
        }
        if span == 1 {
            let p = order[start];
            return BvhNode { left: Child::Primitive(p), right: Child::Primitive(p), bbox };
        }
        if span == 2 {
            return BvhNode {
                left: Child::Primitive(order[start]),
                right: Child::Primitive(order[start + 1]),
                bbox,
            };
        }
        proof {
            assert forall|i: int| start <= i < end implies (#[trigger] order@[i] as int)
                < keys@[axis as int].len() by {
                assert(order@[i] < keys[axis as int].len());
            }
        }
        sort_primitives(order, start, end, &keys[axis]);
        let ghost sorted = order@;
        proof {
            lemma_keyed_reordered(keys@, entry, sorted);
            lemma_range_multiset(entry, sorted, start as int, end as int);
        }
        let mid = start + span / 2;
        let left = Self::new(order, keys, start, mid, bounds);
        let ghost after_left = order@;
        let right = Self::new(order, keys, mid, end, bounds);
        let ghost fin = order@;
        proof {
            let s = start as int;
            let m = mid as int;
            let e = end as int;
            // the right half is untouched by the left build, the left half by the right one
            assert(after_left.subrange(m, e) =~= sorted.subrange(m, e));
            assert(fin.subrange(s, m) =~= after_left.subrange(s, m));
            // the whole range keeps its primitives
            assert(fin.subrange(s, e) =~= fin.subrange(s, m) + fin.subrange(m, e));
            assert(sorted.subrange(s, e) =~= sorted.subrange(s, m) + sorted.subrange(m, e));
            assert(fin.subrange(s, e).to_multiset() =~= sorted.subrange(s, e).to_multiset());
            // the halves are split by key on the axis
            assert forall|a: int, b: int| s <= a < m <= b < e implies #[trigger] key_at(
                keys@[axis as int]@,
                fin,
                a,
            ) <= #[trigger] key_at(keys@[axis as int]@, fin, b) by {
                lemma_from_range(fin, sorted, s, m, a);
                lemma_from_range(fin, sorted, m, e, b);
                let a2 = choose|j: int| s <= j < m && sorted[j] == fin[a];
                let b2 = choose|j: int| m <= j < e && sorted[j] == fin[b];
                assert(key_at(keys@[axis as int]@, sorted, a2) <= key_at(keys@[axis as int]@, sorted, b2));
            }
            assert(split_at(keys@[axis as int]@, fin, s, m, e));
            assert(entry_vec@.subrange(s, e).to_multiset() == fin.subrange(s, e).to_multiset());
            assert(boxed_by(bbox, keys@, fin, s, e, bounds));
            lemma_built_over_frame(left, keys@, after_left, fin, s, m, bounds);
            assert(span / 2 >= 1);
        }
        BvhNode { left: Child::Node(Box::new(left)), right: Child::Node(Box::new(right)), bbox }
    }

    /// Finds the hit of a ray over the ray range `range`: `bbox_hit` tests a
    /// box, `prim_hit` a primitive, and `narrow` shortens the range to end
    /// at a hit.  The walk is [`node_hit`], the three tests being taken to be
    /// functions of their arguments.
    pub fn hit<R: Copy, H, FB: Fn(&B, &R) -> bool, FP: Fn(usize, &R) -> Option<H>, FN: Fn(&R, &H) -> R>(
        &self,
        range: R,
        bbox_hit: &FB,
        prim_hit: &FP,
        narrow: &FN,
    ) -> (found: Option<H>)
        requires
            forall|b: &B, r: &R| #[trigger] bbox_hit.requires((b, r)),
            forall|p: usize, r: &R| #[trigger] prim_hit.requires((p, r)),
            forall|r: &R, h: &H| #[trigger] narrow.requires((r, h)),
            forall|b: &B, r: &R, x: bool| #[trigger] bbox_hit.ensures((b, r), x) ==> x
                == bbox_hit.ensures((b, r), true),
            forall|p: usize, r: &R, x: Option<H>, y: Option<H>|
                #[trigger] prim_hit.ensures((p, r), x) && #[trigger] prim_hit.ensures((p, r), y) ==> x
                    == y,
            forall|r: &R, h: &H, x: R, y: R|
                #[trigger] narrow.ensures((r, h), x) && #[trigger] narrow.ensures((r, h), y) ==> x == y,
        ensures
            found == node_hit(
                *self,
                range,
                |b: B, r: R| bbox_hit.ensures((&b, &r), true),
                |p: usize, r: R| choose|h: Option<H>| #[trigger] prim_hit.ensures((p, &r), h),
                |r: R, h: H| choose|x: R| #[trigger] narrow.ensures((&r, &h), x),
            ),
        decreases *self, 1nat,
    {
        if !bbox_hit(&self.bbox, &range) {
            return None;
        }
        let left = walk_child(&self.left, range, bbox_hit, prim_hit, narrow);
        let range2 = match &left {
            Some(h) => narrow(&range, h),
            None => range,
        };
        let right = walk_child(&self.right, range2, bbox_hit, prim_hit, narrow);
        if right.is_some() {
            right
        } else {
            left
        }
    }
}

/// [`BvhNode::hit`] on a child: a primitive is tested, a node is walked.
fn walk_child<B, R: Copy, H, FB: Fn(&B, &R) -> bool, FP: Fn(usize, &R) -> Option<H>, FN: Fn(&R, &H) -> R>(
    child: &Child<B>,
    range: R,
    bbox_hit: &FB,
    prim_hit: &FP,
    narrow: &FN,
) -> (found: Option<H>)
    requires
        forall|b: &B, r: &R| #[trigger] bbox_hit.requires((b, r)),
        forall|p: usize, r: &R| #[trigger] prim_hit.requires((p, r)),
        forall|r: &R, h: &H| #[trigger] narrow.requires((r, h)),
        forall|b: &B, r: &R, x: bool| #[trigger] bbox_hit.ensures((b, r), x) ==> x == bbox_hit.ensures(
            (b, r),
            true,
        ),
        forall|p: usize, r: &R, x: Option<H>, y: Option<H>|
            #[trigger] prim_hit.ensures((p, r), x) && #[trigger] prim_hit.ensures((p, r), y) ==> x == y,
        forall|r: &R, h: &H, x: R, y: R|
            #[trigger] narrow.ensures((r, h), x) && #[trigger] narrow.ensures((r, h), y) ==> x == y,
    ensures
        found == child_hit(
            *child,
            range,
            |b: B, r: R| bbox_hit.ensures((&b, &r), true),
            |p: usize, r: R| choose|h: Option<H>| #[trigger] prim_hit.ensures((p, &r), h),
            |r: R, h: H| choose|x: R| #[trigger] narrow.ensures((&r, &h), x),
        ),
    decreases *child, 0nat,
{
    match child {
        Child::Primitive(p) => prim_hit(*p, &range),
        Child::Node(n) => n.hit(range, bbox_hit, prim_hit, narrow),
    }
}

} // verus!
