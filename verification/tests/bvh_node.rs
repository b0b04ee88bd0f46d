use rustracer::bvh_node::{BvhNode, Child};

fn prim(c: &Child<u32>) -> usize {
    match c {
        Child::Primitive(p) => *p,
        Child::Node(_) => panic!("expected a primitive"),
    }
}

fn node(c: &Child<u32>) -> &BvhNode<u32> {
    match c {
        Child::Node(n) => n,
        Child::Primitive(_) => panic!("expected a node"),
    }
}

fn box_of_range(_: &Vec<usize>, start: usize, end: usize) -> (u32, usize) {
    ((start * 10 + end) as u32, 0)
}

#[test]
fn one_primitive_is_both_children() {
    let mut order = vec![3];
    let keys = vec![vec![0, 0, 0, 0]];
    let n = BvhNode::new(&mut order, &keys, 0, 1, &box_of_range);
    assert_eq!((prim(&n.left), prim(&n.right), n.bbox), (3, 3, 1));
    assert_eq!(order, vec![3]);
}

#[test]
fn two_primitives_keep_their_order() {
    let mut order = vec![1, 0];
    let keys = vec![vec![0, 9]];
    let n = BvhNode::new(&mut order, &keys, 0, 2, &box_of_range);
    assert_eq!((prim(&n.left), prim(&n.right), n.bbox), (1, 0, 2));
    assert_eq!(order, vec![1, 0]);
}

#[test]
fn longer_ranges_are_sorted_and_halved() {
    let mut order = vec![0, 1, 2, 3, 4];
    let keys = vec![vec![50, 40, 30, 20, 10], vec![0, 1, 2, 3, 4]];
    let root = BvhNode::new(&mut order, &keys, 0, 5, &box_of_range);
    assert_eq!(order, vec![4, 3, 2, 1, 0]);
    assert_eq!(root.bbox, 5);
    let left = node(&root.left);
    assert_eq!((prim(&left.left), prim(&left.right), left.bbox), (4, 3, 2));
    let right = node(&root.right);
    assert_eq!(right.bbox, 25);
    let single = node(&right.left);
    assert_eq!((prim(&single.left), prim(&single.right), single.bbox), (2, 2, 23));
    let pair = node(&right.right);
    assert_eq!((prim(&pair.left), prim(&pair.right), pair.bbox), (1, 0, 35));
}

#[test]
fn split_axis_comes_from_the_bounds() {
    let mut order = vec![0, 1, 2, 3];
    let keys = vec![vec![0, 1, 2, 3], vec![3, 2, 1, 0]];
    let bounds = |_: &Vec<usize>, _: usize, _: usize| (0u32, 1usize);
    let root = BvhNode::new(&mut order, &keys, 0, 4, &bounds);
    assert_eq!(order, vec![3, 2, 1, 0]);
    assert_eq!((prim(&node(&root.left).left), prim(&node(&root.right).right)), (3, 0));
}

#[test]
fn only_the_range_is_reordered() {
    let mut order = vec![9, 2, 1, 0, 8];
    let keys = vec![vec![0, 1, 2, 5, 5, 5, 5, 5, 7, 7]];
    let _ = BvhNode::new(&mut order, &keys, 1, 4, &box_of_range);
    assert_eq!(order, vec![9, 0, 1, 2, 8]);
}

fn walk(n: &BvhNode<u32>, ts: &[u32], missed_box: u32, max: u32) -> Option<u32> {
    let bbox_hit = |b: &u32, _: &u32| *b != missed_box;
    let prim_hit = |p: usize, max: &u32| if ts[p] < *max { Some(ts[p]) } else { None };
    let narrow = |_: &u32, h: &u32| *h;
    n.hit(max, &bbox_hit, &prim_hit, &narrow)
}

#[test]
fn hit_prefers_the_right_child_when_it_is_nearer() {
    let mut order = vec![0, 1];
    let keys = vec![vec![0, 0]];
    let n = BvhNode::new(&mut order, &keys, 0, 2, &box_of_range);
    assert_eq!(walk(&n, &[9, 4], 99, 100), Some(4));
    assert_eq!(walk(&n, &[4, 9], 99, 100), Some(4));
    assert_eq!(walk(&n, &[4, 9], 2, 100), None);
    assert_eq!(walk(&n, &[4, 9], 99, 3), None);
}

#[test]
fn hit_walks_the_whole_tree() {
    let mut order = vec![0, 1, 2, 3, 4];
    let keys = vec![vec![50, 40, 30, 20, 10]];
    let root = BvhNode::new(&mut order, &keys, 0, 5, &box_of_range);
    // leaves in walk order: 4, 3, 2, 2, 1, 0
    assert_eq!(walk(&root, &[8, 6, 7, 9, 5], 99, 100), Some(5));
    assert_eq!(walk(&root, &[1, 6, 7, 9, 5], 99, 100), Some(1));
    assert_eq!(walk(&root, &[1, 6, 7, 9, 5], 35, 100), Some(5));
    assert_eq!(walk(&root, &[1, 6, 7, 9, 5], 5, 100), None);
}
