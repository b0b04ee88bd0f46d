use rustracer::bvh::{
    build_layout, build_recursive, initial_nodes, initial_prim_indices, sort_primitives, split_node,
    total_order_key, Bvh, Node,
};

#[test]
fn initial_layout() {
    let nodes = initial_nodes(3, 'e');
    assert_eq!(nodes.len(), 5);
    assert_eq!(nodes[0].primitive_count, 3);
    assert_eq!(nodes[0].first_idx, 0);
    assert!(nodes[0].is_leaf());
    assert!(nodes[1..]
        .iter()
        .all(|n| n.primitive_count == 0 && n.first_idx == 0 && n.bbox == 'e' && !n.is_leaf()));
    assert_eq!(initial_prim_indices(4), vec![0, 1, 2, 3]);
    assert!(initial_prim_indices(0).is_empty());
}

#[test]
fn sort_orders_only_the_range() {
    let keys = vec![50, 10, 40, 30, 20];
    let mut order = vec![0, 1, 2, 3, 4];
    sort_primitives(&mut order, 1, 4, &keys);
    assert_eq!(order, vec![0, 1, 3, 2, 4]);
}

#[test]
fn sort_whole_order_with_duplicates() {
    let keys = vec![5, 3, 5, 1, 3, 0];
    let mut order = vec![0, 1, 2, 3, 4, 5];
    sort_primitives(&mut order, 0, 6, &keys);
    let sorted: Vec<u32> = order.iter().map(|i| keys[*i]).collect();
    assert_eq!(sorted, vec![0, 1, 3, 3, 5, 5]);
    let mut again = order.clone();
    again.sort();
    assert_eq!(again, vec![0, 1, 2, 3, 4, 5]);
}

#[test]
fn sort_empty_and_single_ranges() {
    let keys = vec![2, 1];
    let mut order = vec![0, 1];
    sort_primitives(&mut order, 1, 1, &keys);
    assert_eq!(order, vec![0, 1]);
    sort_primitives(&mut order, 0, 1, &keys);
    assert_eq!(order, vec![0, 1]);
}

#[test]
fn keys_follow_total_order() {
    let values: [f32; 9] = [
        f32::NEG_INFINITY,
        -2.5,
        -1.0,
        -0.0,
        0.0,
        1e-30,
        1.0,
        3.5,
        f32::INFINITY,
    ];
    for a in values {
        for b in values {
            let ka = total_order_key(a.to_bits());
            let kb = total_order_key(b.to_bits());
            assert_eq!(ka.cmp(&kb), a.total_cmp(&b));
        }
    }
    assert_eq!(total_order_key(0.0f32.to_bits()), 0x8000_0000);
    assert_eq!(total_order_key((-0.0f32).to_bits()), 0x7FFF_FFFF);
}

fn leaf(count: u32, first: u32) -> Node<u8> {
    Node { bbox: 0, primitive_count: count, first_idx: first }
}

#[test]
fn split_at_range_start_is_no_split() {
    let mut nodes = vec![leaf(4, 0), leaf(0, 0), leaf(0, 0)];
    let mut count = 1;
    assert_eq!(split_node(&mut nodes, 0, 0, &mut count), None);
    assert_eq!(count, 1);
    assert_eq!(nodes[0].primitive_count, 4);
    assert_eq!(split_node(&mut nodes, 0, 4, &mut count), None);
    assert_eq!(count, 1);
}

#[test]
fn split_in_the_middle() {
    let mut nodes = vec![leaf(5, 2), leaf(0, 0), leaf(0, 0), leaf(0, 0)];
    let mut count = 1;
    assert_eq!(split_node(&mut nodes, 0, 4, &mut count), Some((1, 2)));
    assert_eq!(count, 3);
    assert_eq!((nodes[1].primitive_count, nodes[1].first_idx), (2, 2));
    assert_eq!((nodes[2].primitive_count, nodes[2].first_idx), (3, 4));
    assert_eq!((nodes[0].primitive_count, nodes[0].first_idx), (0, 1));
    assert!(!nodes[0].is_leaf());
}

#[test]
fn bvh_keeps_its_parts() {
    let nodes = initial_nodes(2, 7u8);
    let bvh = Bvh::new(nodes, initial_prim_indices(2), vec!["a", "b"]);
    assert_eq!(bvh.bounding_box(), 7);
    assert_eq!(bvh.nodes().len(), 3);
    assert_eq!(bvh.prim_indices(), &vec![0, 1]);
    assert_eq!(bvh.models(), &vec!["a", "b"]);
}

#[test]
fn build_layout_keeps_one_sorted_leaf() {
    // keys on two axes; the bounds pick axis 1 and report the range length as the box
    let keys = vec![vec![0, 1, 2, 3, 4], vec![40, 10, 30, 0, 20]];
    let bounds = |_: &Vec<usize>, first: u32, count: u32| ((first, count), 1usize);
    let (nodes, order) = build_layout(5, &keys, (99, 99), &bounds);
    assert_eq!(nodes.len(), 9);
    assert_eq!((nodes[0].primitive_count, nodes[0].first_idx), (5, 0));
    assert!(nodes[0].is_leaf());
    assert_eq!(nodes[0].bbox, (0, 5));
    assert_eq!(order, vec![3, 1, 4, 2, 0]);
    assert!(nodes[1..].iter().all(|n| n.bbox == (99, 99) && n.primitive_count == 0));
}

#[test]
fn small_leaves_get_the_empty_box() {
    let keys = vec![vec![5, 4]];
    let bounds = |_: &Vec<usize>, _: u32, _: u32| (1u8, 0usize);
    let (nodes, order) = build_layout(2, &keys, 0u8, &bounds);
    assert_eq!(nodes[0].bbox, 0);
    assert_eq!(order, vec![0, 1]);
}

#[test]
fn build_recursive_sorts_a_subrange() {
    let keys = vec![vec![9, 8, 7, 6, 5]];
    let mut nodes = vec![Node { bbox: 0u8, primitive_count: 3, first_idx: 1 }];
    let mut order = vec![0, 1, 2, 3, 4];
    let mut count = 1;
    let bounds = |_: &Vec<usize>, _: u32, _: u32| (7u8, 0usize);
    build_recursive(&mut nodes, &mut order, &keys, 0, &mut count, 0, &bounds);
    assert_eq!(order, vec![0, 3, 2, 1, 4]);
    assert_eq!(nodes[0].bbox, 7);
    assert_eq!((nodes[0].primitive_count, nodes[0].first_idx), (3, 1));
    assert_eq!(count, 1);
}

fn node(bbox: u8, count: u32, first: u32) -> Node<u8> {
    Node { bbox, primitive_count: count, first_idx: first }
}

fn walk(bvh: &Bvh<u8, i32>) -> Option<i32> {
    let bbox_hit = |b: &u8| *b != 0;
    let model_hit = |m: &i32| if *m > 0 { Some(*m) } else { None };
    let closer = |x: &i32, y: &i32| *x < *y;
    bvh.hit(&bbox_hit, &model_hit, &closer)
}

#[test]
fn hit_takes_the_closest_primitive_of_a_leaf() {
    let bvh = Bvh::new(vec![node(1, 3, 0)], vec![0, 1, 2], vec![5, 3, 7]);
    assert_eq!(walk(&bvh), Some(3));
}

#[test]
fn hit_misses_when_the_root_box_is_missed() {
    let bvh = Bvh::new(vec![node(0, 3, 0)], vec![0, 1, 2], vec![5, 3, 7]);
    assert_eq!(walk(&bvh), None);
}

#[test]
fn hit_skips_a_missed_child_and_follows_the_order() {
    let nodes = vec![node(1, 0, 1), node(0, 1, 0), node(1, 2, 1)];
    let bvh = Bvh::new(nodes, vec![2, 0, 1], vec![4, 9, 1]);
    assert_eq!(walk(&bvh), Some(4));
}

#[test]
fn hit_stops_at_the_first_leaf_whose_box_is_hit() {
    let nodes = vec![node(1, 0, 1), node(1, 1, 0), node(1, 1, 1)];
    let bvh = Bvh::new(nodes, vec![0, 1], vec![-1, 2]);
    assert_eq!(walk(&bvh), None);
    let nodes = vec![node(1, 0, 1), node(1, 1, 0), node(1, 1, 1)];
    let bvh = Bvh::new(nodes, vec![1, 0], vec![-1, 2]);
    assert_eq!(walk(&bvh), Some(2));
}

#[test]
fn hit_keeps_the_first_of_equally_close_hits() {
    let bvh = Bvh::new(vec![node(1, 2, 0)], vec![0, 1], vec![6, 6]);
    assert_eq!(walk(&bvh), Some(6));
}

#[test]
fn hit_walks_breadth_first() {
    let nodes = vec![node(1, 0, 1), node(1, 0, 3), node(1, 1, 0), node(1, 1, 1), node(1, 1, 2)];
    let bvh = Bvh::new(nodes, vec![0, 1, 2], vec![8, 2, 5]);
    assert_eq!(walk(&bvh), Some(8));
}

#[test]
fn walkable_hierarchies() {
    let bvh = Bvh::new(vec![node(1, 0, 1), node(0, 1, 0), node(1, 2, 1)], vec![2, 0, 1], vec![4, 9, 1]);
    assert!(bvh.walkable());
    let bvh: Bvh<u8, i32> = Bvh::new(vec![], vec![], vec![]);
    assert!(!bvh.walkable());
    let bvh = Bvh::new(vec![node(1, 4, 0)], vec![0, 1, 2], vec![5, 3, 7]);
    assert!(!bvh.walkable());
    let bvh = Bvh::new(vec![node(1, 3, 0)], vec![0, 1, 3], vec![5, 3, 7]);
    assert!(!bvh.walkable());
    let bvh = Bvh::new(vec![node(1, 0, 1), node(1, 0, 0), node(1, 1, 0)], vec![0], vec![5]);
    assert!(!bvh.walkable());
    let bvh = Bvh::new(vec![node(1, 0, 1), node(1, 1, 0)], vec![0], vec![5]);
    assert!(!bvh.walkable());
    let bvh = Bvh::new(vec![node(1, 1, u32::MAX)], vec![0], vec![5]);
    assert!(!bvh.walkable());
}

#[test]
fn built_layout_is_walkable() {
    let keys = vec![vec![40, 10, 30, 0, 20]];
    let bounds = |_: &Vec<usize>, _: u32, _: u32| (1u8, 0usize);
    let (nodes, order) = build_layout(5, &keys, 1u8, &bounds);
    let bvh = Bvh::new(nodes, order, vec![7, -2, 3, 9, 4]);
    assert!(bvh.walkable());
    assert_eq!(walk(&bvh), Some(3));
}

#[test]
fn children_may_come_before_their_parent() {
    // node 4's children are nodes 1 and 2; node 3's box is missed
    let nodes = vec![node(1, 0, 3), node(1, 1, 0), node(1, 1, 1), node(0, 1, 2), node(1, 0, 1)];
    let bvh = Bvh::new(nodes, vec![0, 1, 2], vec![6, 4, 9]);
    assert!(bvh.walkable());
    assert_eq!(walk(&bvh), Some(6));
    let cyclic = vec![node(1, 0, 1), node(1, 0, 0), node(1, 1, 0)];
    let bvh = Bvh::new(cyclic, vec![0], vec![5]);
    assert!(!bvh.walkable());
}
