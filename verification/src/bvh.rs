//! Bookkeeping of the bounding-volume hierarchy: the flat node array, the
//! primitive order and the ordering of primitives along a split axis.
//!
//! Bounding boxes are carried through as an opaque type `B`; primitives are
//! ordered by integer keys, one per primitive (see [`total_order_key`]).

use vstd::prelude::*;

verus! {

broadcast use {vstd::seq_lib::group_to_multiset_ensures, vstd::multiset::group_multiset_axioms};

/// A node of the flat hierarchy.  A leaf covers `primitive_count` entries of
/// the primitive order from `first_idx` on; an interior node has
/// `primitive_count == 0` and its children at `first_idx` and `first_idx + 1`.
#[derive(Clone, Copy, Debug, Default)]
pub struct Node<B> {
    pub bbox: B,
    pub primitive_count: u32,
    pub first_idx: u32,
}

impl<B> Node<B> {
    pub fn is_leaf(&self) -> (leaf: bool)
        ensures
            leaf == (self.primitive_count != 0),
    {
        self.primitive_count != 0
    }
}

/// A built hierarchy: the node array (root first), the primitive order that
/// leaves index into, and the primitives.
pub struct Bvh<B, M> {
    nodes: Vec<Node<B>>,
    prim_indices: Vec<usize>,
    models: Vec<M>,
}

impl<B: Copy, M> Bvh<B, M> {
    pub fn new(nodes: Vec<Node<B>>, prim_indices: Vec<usize>, models: Vec<M>) -> (bvh: Self)
        ensures
            bvh.spec_nodes() == nodes@,
            bvh.spec_prim_indices() == prim_indices@,
            bvh.spec_models() == models@,
    {
        Bvh { nodes, prim_indices, models }
    }

    pub closed spec fn spec_nodes(&self) -> Seq<Node<B>> {
        self.nodes@
    }

    pub closed spec fn spec_prim_indices(&self) -> Seq<usize> {
        self.prim_indices@
    }

    pub closed spec fn spec_models(&self) -> Seq<M> {
        self.models@
    }

    /// The bounding box of the root, which bounds the whole hierarchy.
    pub fn bounding_box(&self) -> (bbox: B)
        requires
            self.spec_nodes().len() > 0,
        ensures
            bbox == self.spec_nodes()[0].bbox,
    {
        self.nodes[0].bbox
    }

    pub fn nodes(&self) -> (nodes: &Vec<Node<B>>)
        ensures
            nodes@ == self.spec_nodes(),
    {
        &self.nodes
    }

    pub fn prim_indices(&self) -> (indices: &Vec<usize>)
        ensures
            indices@ == self.spec_prim_indices(),
    {
        &self.prim_indices
    }

    pub fn models(&self) -> (models: &Vec<M>)
        ensures
            models@ == self.spec_models(),
    {
        &self.models
    }

    /// Whether the subtree at node `i` can be walked within `depth` levels
    /// (see [`subtree_ok`]).
    fn subtree_walkable(&self, i: usize, depth: usize) -> (ok: bool)
        ensures
            ok == subtree_ok(
                self.spec_nodes(),
                self.spec_prim_indices().len() as int,
                i as int,
                depth as nat,
            ),
        decreases depth,
    {
        if i >= self.nodes.len() {
            return false;
        }
        let node = self.nodes[i];
        let end: u64 = node.first_idx as u64 + node.primitive_count as u64;
        if node.primitive_count != 0 {
            end <= self.prim_indices.len() as u64 && end <= 0x1_0000_0000u64
        } else {
            let first = node.first_idx as usize;
            if depth > 0 && (first as u64) + 1 < self.nodes.len() as u64 {
                self.subtree_walkable(first, depth - 1) && self.subtree_walkable(first + 1, depth - 1)
            } else {
                false
            }
        }
    }

    /// Whether [`Bvh::hit`] can walk this hierarchy: there is a root, the
    /// nodes reached from it are walkable within as many levels as there are
    /// nodes (so no node is reached again below itself), and every entry of
    /// the primitive order names a primitive.
    pub fn walkable(&self) -> (ok: bool)
        ensures
            ok == (self.spec_nodes().len() > 0 && subtree_ok(
                self.spec_nodes(),
                self.spec_prim_indices().len() as int,
                0,
                self.spec_nodes().len(),
            ) && forall|i: int|
                0 <= i < self.spec_prim_indices().len() ==> #[trigger] self.spec_prim_indices()[i]
                    < self.spec_models().len()),
            ok ==> walkable_from_root(self.spec_nodes(), self.spec_prim_indices().len() as int),
    {
        if self.nodes.len() == 0 || !self.subtree_walkable(0, self.nodes.len()) {
            return false;
        }
        let mut i: usize = 0;
        while i < self.prim_indices.len()
            invariant
                i <= self.prim_indices.len(),
                forall|j: int| 0 <= j < i ==> #[trigger] self.prim_indices@[j] < self.models.len(),
            decreases self.prim_indices.len() - i,
        {
            if self.prim_indices[i] >= self.models.len() {
                return false;
            }
            i += 1;
        }
        true
    }

    /// Finds a hit by walking the hierarchy breadth first from the root.  A
    /// node whose box `bbox_hit` rejects is skipped; an interior node queues
    /// its two children; the first leaf whose box is hit ends the walk: its
    /// primitives are tried in order with `model_hit`, and a hit replaces the
    /// one kept so far when it is `closer` (`None` when none of them is hit).
    /// `None` also when no leaf's box is hit.  The three tests are taken to
    /// be functions of their arguments.
    pub fn hit<H, FB: Fn(&B) -> bool, FM: Fn(&M) -> Option<H>, FC: Fn(&H, &H) -> bool>(
        &self,
        bbox_hit: &FB,
        model_hit: &FM,
        closer: &FC,
    ) -> (found: Option<H>)
        requires
            self.spec_nodes().len() > 0,
            walkable_from_root(self.spec_nodes(), self.spec_prim_indices().len() as int),
            forall|i: int|
                0 <= i < self.spec_prim_indices().len() ==> #[trigger] self.spec_prim_indices()[i]
                    < self.spec_models().len(),
            forall|b: &B| #[trigger] bbox_hit.requires((b,)),
            forall|m: &M| #[trigger] model_hit.requires((m,)),
            forall|x: &H, y: &H| #[trigger] closer.requires((x, y)),
            forall|b: &B, r: bool| #[trigger] bbox_hit.ensures((b,), r) ==> r == bbox_hit.ensures(
                (b,),
                true,
            ),
            forall|m: &M, r1: Option<H>, r2: Option<H>|
                #[trigger] model_hit.ensures((m,), r1) && #[trigger] model_hit.ensures((m,), r2)
                    ==> r1 == r2,
            forall|x: &H, y: &H, r: bool| #[trigger] closer.ensures((x, y), r) ==> r == closer.ensures(
                (x, y),
                true,
            ),
        ensures
            found == (match walk_stop(
                self.spec_nodes(),
                seq![0usize],
                seq![root_depth(self.spec_nodes(), self.spec_prim_indices().len() as int)],
                |b: B| bbox_hit.ensures((&b,), true),
            ) {
                Some(n) => closest_hit(
                    leaf_hits(self.spec_nodes()[n], self.spec_prim_indices(), self.spec_models(), model_hit),
                    |x: H, y: H| closer.ensures((&x, &y), true),
                ),
                None => None,
            }),
            found matches Some(h) ==> ({
                let stop = walk_stop(
                    self.spec_nodes(),
                    seq![0usize],
                    seq![root_depth(self.spec_nodes(), self.spec_prim_indices().len() as int)],
                    |b: B| bbox_hit.ensures((&b,), true),
                );
                let n = stop->0;
                let leaf = self.spec_nodes()[n];
                &&& stop is Some
                &&& 0 <= n < self.spec_nodes().len()
                &&& leaf.primitive_count != 0
                &&& bbox_hit.ensures((&leaf.bbox,), true)
                &&& exists|k: int|
                    #![trigger self.spec_prim_indices()[k]]
                    leaf.first_idx <= k < leaf.first_idx + leaf.primitive_count
                        && model_hit.ensures(
                        (&self.spec_models()[self.spec_prim_indices()[k] as int],),
                        Some(h),
                    )
                &&& strict_order(|x: H, y: H| closer.ensures((&x, &y), true)) ==> forall|k: int, x: H|
                    #![trigger self.spec_prim_indices()[k], model_hit.ensures(
                        (&self.spec_models()[self.spec_prim_indices()[k] as int],),
                        Some(x),
                    )]
                    leaf.first_idx <= k < leaf.first_idx + leaf.primitive_count && model_hit.ensures(
                        (&self.spec_models()[self.spec_prim_indices()[k] as int],),
                        Some(x),
                    ) ==> !closer.ensures((&x, &h), true)
            }),
    {
        let ghost nodes = self.nodes@;
        let ghost plen = self.prim_indices.len() as int;
        let ghost accepts = |b: B| bbox_hit.ensures((&b,), true);
        let ghost d0 = root_depth(nodes, plen);
        let ghost stop = walk_stop(nodes, seq![0usize], seq![d0], accepts);
        let ghost mut depths: Seq<nat> = seq![d0];
        let nodes_len = self.nodes.len();
        let mut queue: Vec<usize> = Vec::new();
        queue.push(0);
        let mut head: usize = 0;
        proof {
            assert(queue@.subrange(0, 1) =~= seq![0usize]);
            assert(depths.subrange(0, 1) =~= seq![d0]);
        }
        while head < queue.len()
            invariant
                nodes == self.nodes@,
                nodes_len == nodes.len(),
                plen == self.prim_indices.len(),
                nodes.len() > 0,
                head <= queue.len(),
                accepts == (|b: B| bbox_hit.ensures((&b,), true)),
                depths.len() == queue.len(),
                d0 == root_depth(nodes, plen),
                stop == walk_stop(nodes, seq![0usize], seq![d0], accepts),
                stop == walk_stop(
                    nodes,
                    queue@.subrange(head as int, queue.len() as int),
                    depths.subrange(head as int, queue.len() as int),
                    accepts,
                ),
                forall|i: int|
                    0 <= i < self.prim_indices.len() ==> #[trigger] self.prim_indices@[i]
                        < self.models.len(),
                forall|k: int|
                    head <= k < queue.len() ==> subtree_ok(nodes, plen, #[trigger] queue@[k] as int, depths[k]),
                forall|b: &B| #[trigger] bbox_hit.requires((b,)),
                forall|m: &M| #[trigger] model_hit.requires((m,)),
                forall|x: &H, y: &H| #[trigger] closer.requires((x, y)),
                forall|b: &B, r: bool| #[trigger] bbox_hit.ensures((b,), r) ==> r == bbox_hit.ensures(
                    (b,),
                    true,
                ),
                forall|m: &M, r1: Option<H>, r2: Option<H>|
                    #[trigger] model_hit.ensures((m,), r1) && #[trigger] model_hit.ensures((m,), r2)
                        ==> r1 == r2,
                forall|x: &H, y: &H, r: bool| #[trigger] closer.ensures((x, y), r) ==> r == closer.ensures(
                    (x, y),
                    true,
                ),
            decreases queue_weight(
                nodes,
                queue@.subrange(head as int, queue.len() as int),
                depths.subrange(head as int, queue.len() as int),
            ),
        {
            let ghost live = queue@.subrange(head as int, queue.len() as int);
            let ghost live_depths = depths.subrange(head as int, queue.len() as int);
            let ghost d = depths[head as int];
            proof {
                lemma_queue_weight_front(nodes, live, live_depths);
                assert(live.drop_first() =~= queue@.subrange(head + 1, queue.len() as int));
                assert(live_depths.drop_first() =~= depths.subrange(head + 1, queue.len() as int));
            }
            let node_idx = queue[head];
            proof {
                assert(subtree_ok(nodes, plen, queue@[head as int] as int, d));
            }
            head += 1;
            let node = self.nodes[node_idx];
            proof {
                if node.primitive_count != 0 {
                    assert(node.first_idx + node.primitive_count <= plen);
                    assert(node.first_idx + node.primitive_count <= u32::MAX + 1);
                } else {
                    assert(d > 0 && node.first_idx + 1 < nodes.len());
                    assert(subtree_ok(nodes, plen, node.first_idx as int, (d - 1) as nat));
                    assert(subtree_ok(nodes, plen, node.first_idx + 1, (d - 1) as nat));
                }
            }
            let box_hit = bbox_hit(&node.bbox);
            proof {
                assert(box_hit == accepts(nodes[node_idx as int].bbox));
            }
            if !box_hit {
                continue;
            }
            if node.is_leaf() {
                let ghost hits = leaf_hits(node, self.prim_indices@, self.models@, model_hit);
                let ghost cl = |x: H, y: H| closer.ensures((&x, &y), true);
                let mut current: Option<H> = None;
                let mut i: u32 = 0;
                proof {
                    assert(hits.take(0) =~= Seq::<Option<H>>::empty());
                }
                while i < node.primitive_count
                    invariant
                        nodes == self.nodes@,
                        0 <= node_idx < nodes.len(),
                        node == nodes[node_idx as int],
                        node.primitive_count != 0,
                        node.first_idx + node.primitive_count <= self.prim_indices.len(),
                        node.first_idx + node.primitive_count <= u32::MAX + 1,
                        i <= node.primitive_count,
                        hits == leaf_hits(node, self.prim_indices@, self.models@, model_hit),
                        cl == (|x: H, y: H| closer.ensures((&x, &y), true)),
                        current == closest_hit(hits.take(i as int), cl),
                        forall|j: int|
                            0 <= j < i ==> model_hit.ensures(
                                (&self.models@[self.prim_indices@[node.first_idx + j] as int],),
                                #[trigger] hits[j],
                            ),
                        forall|i: int|
                            0 <= i < self.prim_indices.len() ==> #[trigger] self.prim_indices@[i]
                                < self.models.len(),
                        forall|m: &M| #[trigger] model_hit.requires((m,)),
                        forall|x: &H, y: &H| #[trigger] closer.requires((x, y)),
                        forall|m: &M, r1: Option<H>, r2: Option<H>|
                            #[trigger] model_hit.ensures((m,), r1) && #[trigger] model_hit.ensures(
                                (m,),
                                r2,
                            ) ==> r1 == r2,
                        forall|x: &H, y: &H, r: bool| #[trigger] closer.ensures((x, y), r) ==> r
                            == closer.ensures((x, y), true),
                    decreases node.primitive_count - i,
                {
                    let k = (node.first_idx + i) as usize;
                    let prim_index = self.prim_indices[k];
                    let model = &self.models[prim_index];
                    let result = model_hit(model);
                    proof {
                        assert(result == hits[i as int]);
                        assert(hits.take(i + 1).drop_last() =~= hits.take(i as int));
                        assert(hits.take(i + 1).last() == hits[i as int]);
                    }
                    match result {
                        Some(x) => {
                            let replace = match &current {
                                Some(y) => closer(&x, y),
                                None => true,
                            };
                            if replace {
                                current = Some(x);
                            }
                        },
                        None => {},
                    }
                    i += 1;
                }
                proof {
                    assert(hits.take(node.primitive_count as int) =~= hits);
                    lemma_closest_hit(hits, cl);
                    if current is Some {
                        let h = current->0;
                        let j = choose|j: int| 0 <= j < hits.len() && #[trigger] hits[j] == Some(h);
                        let k = node.first_idx + j;
                        assert(model_hit.ensures((&self.models@[self.prim_indices@[k] as int],), hits[j]));
                        assert(self.spec_prim_indices()[k] == self.prim_indices@[k]);
                        if strict_order(cl) {
                            assert forall|k: int, x: H|
                                node.first_idx <= k < node.first_idx + node.primitive_count
                                    && model_hit.ensures(
                                    (&self.models@[self.prim_indices@[k] as int],),
                                    Some(x),
                                ) implies !closer.ensures((&x, &h), true) by {
                                let j2 = k - node.first_idx;
                                assert(model_hit.ensures(
                                    (&self.models@[self.prim_indices@[node.first_idx + j2] as int],),
                                    hits[j2],
                                ));
                                assert(hits[j2] == Some(x));
                                assert(!cl(x, h));
                            }
                        }
                    }
                    assert(live[0] == node_idx);
                    assert(live_depths.len() == live.len());
                    assert(walk_stop(nodes, live, live_depths, accepts) == Some(node_idx as int));
                }
                return current;
            } else {
                proof {
                    assert(node.primitive_count == 0);
                    assert(d > 0 && node.first_idx + 1 < nodes.len());
                    assert(subtree_size(nodes, node_idx as int, d) == 1 + subtree_size(
                        nodes,
                        node.first_idx as int,
                        (d - 1) as nat,
                    ) + subtree_size(nodes, node.first_idx + 1, (d - 1) as nat));
                }
                let first = node.first_idx as usize;
                let ghost before = queue@;
                let ghost before_depths = depths;
                queue.push(first);
                queue.push(first + 1);
                proof {
                    depths = depths.push((d - 1) as nat).push((d - 1) as nat);
                    let rest = before.subrange(head as int, before.len() as int);
                    let rest_depths = before_depths.subrange(head as int, before.len() as int);
                    assert(queue@.subrange(head as int, queue.len() as int) =~= rest.push(
                        first,
                    ).push((first + 1) as usize));
                    assert(depths.subrange(head as int, queue.len() as int) =~= rest_depths.push(
                        (d - 1) as nat,
                    ).push((d - 1) as nat));
                    assert(rest =~= live.drop_first());
                    assert(rest_depths =~= live_depths.drop_first());
                    assert(live[0] == node_idx);
                    assert(live_depths[0] == d);
                    lemma_queue_weight_push2(
                        nodes,
                        rest,
                        rest_depths,
                        first,
                        (first + 1) as usize,
                        (d - 1) as nat,
                    );
                    assert forall|k: int| head <= k < queue.len() implies subtree_ok(
                        nodes,
                        plen,
                        #[trigger] queue@[k] as int,
                        depths[k],
                    ) by {
                        if k < before.len() {
                            assert(queue@[k] == before[k]);
                            assert(depths[k] == before_depths[k]);
                        }
                    }
                }
            }
        }
        None
    }
}

/// The subtree at node `i` can be walked and is at most `depth` levels
/// deep below `i`: `i` is a node, a leaf covers positions inside the
/// primitive order (of length `prim_len`), and an interior node's children
/// are nodes walkable in turn, one level less deep.
pub open spec fn subtree_ok<B>(nodes: Seq<Node<B>>, prim_len: int, i: int, depth: nat) -> bool
    decreases depth,
{
    if 0 <= i < nodes.len() {
        let f = nodes[i].first_idx as int;
        if nodes[i].primitive_count != 0 {
            f + nodes[i].primitive_count <= prim_len && f + nodes[i].primitive_count <= u32::MAX + 1
        } else {
            &&& depth > 0
            &&& f + 1 < nodes.len()
            &&& subtree_ok(nodes, prim_len, f, (depth - 1) as nat)
            &&& subtree_ok(nodes, prim_len, f + 1, (depth - 1) as nat)
        }
    } else {
        false
    }
}

/// The hierarchy can be walked from its root: some depth bounds it.
pub open spec fn walkable_from_root<B>(nodes: Seq<Node<B>>, prim_len: int) -> bool {
    exists|depth: nat| #[trigger] subtree_ok(nodes, prim_len, 0, depth)
}

/// A depth that bounds the hierarchy below its root.
pub open spec fn root_depth<B>(nodes: Seq<Node<B>>, prim_len: int) -> nat {
    choose|depth: nat| #[trigger] subtree_ok(nodes, prim_len, 0, depth)
}

/// Number of node visits of the subtree at node `i`, followed at most
/// `depth` levels down.
pub open spec fn subtree_size<B>(nodes: Seq<Node<B>>, i: int, depth: nat) -> nat
    decreases depth,
{
    if 0 <= i < nodes.len() && nodes[i].primitive_count == 0 && depth > 0 && nodes[i].first_idx + 1
        < nodes.len() {
        1 + subtree_size(nodes, nodes[i].first_idx as int, (depth - 1) as nat) + subtree_size(
            nodes,
            nodes[i].first_idx + 1,
            (depth - 1) as nat,
        )
    } else {
        1
    }
}

/// Total size of the subtrees queued in `queue`, each followed to the depth
/// beside it in `depths`.
pub open spec fn queue_weight<B>(nodes: Seq<Node<B>>, queue: Seq<usize>, depths: Seq<nat>) -> nat
    decreases queue.len(),
{
    if queue.len() == 0 || depths.len() == 0 {
        0
    } else {
        queue_weight(nodes, queue.drop_last(), depths.drop_last()) + subtree_size(
            nodes,
            queue.last() as int,
            depths.last(),
        )
    }
}

/// The weight of a queue is that of its front subtree plus that of the rest.
pub proof fn lemma_queue_weight_front<B>(nodes: Seq<Node<B>>, queue: Seq<usize>, depths: Seq<nat>)
    requires
        queue.len() > 0,
        depths.len() == queue.len(),
    ensures
        queue_weight(nodes, queue, depths) == subtree_size(nodes, queue[0] as int, depths[0])
            + queue_weight(nodes, queue.drop_first(), depths.drop_first()),
    decreases queue.len(),
{
    if queue.len() > 1 {
        lemma_queue_weight_front(nodes, queue.drop_last(), depths.drop_last());
        assert(queue.drop_last().drop_first() =~= queue.drop_first().drop_last());
        assert(depths.drop_last().drop_first() =~= depths.drop_first().drop_last());
        assert(queue.drop_last()[0] == queue[0]);
        assert(depths.drop_last()[0] == depths[0]);
        assert(queue.drop_first().last() == queue.last());
        assert(depths.drop_first().last() == depths.last());
        assert(queue_weight(nodes, queue.drop_first(), depths.drop_first()) == queue_weight(
            nodes,
            queue.drop_first().drop_last(),
            depths.drop_first().drop_last(),
        ) + subtree_size(nodes, queue.drop_first().last() as int, depths.drop_first().last()));
    } else {
        assert(queue_weight(nodes, queue.drop_last(), depths.drop_last()) == 0);
        assert(queue_weight(nodes, queue.drop_first(), depths.drop_first()) == 0);
        assert(queue.last() == queue[0]);
        assert(depths.last() == depths[0]);
    }
}

/// Queuing two subtrees adds their sizes to the weight.
pub proof fn lemma_queue_weight_push2<B>(
    nodes: Seq<Node<B>>,
    queue: Seq<usize>,
    depths: Seq<nat>,
    f: usize,
    g: usize,
    d: nat,
)
    requires
        depths.len() == queue.len(),
    ensures
        queue_weight(nodes, queue.push(f).push(g), depths.push(d).push(d)) == queue_weight(
            nodes,
            queue,
            depths,
        ) + subtree_size(nodes, f as int, d) + subtree_size(nodes, g as int, d),
{
    assert(queue.push(f).drop_last() =~= queue);
    assert(depths.push(d).drop_last() =~= depths);
    assert(queue.push(f).push(g).drop_last() =~= queue.push(f));
    assert(depths.push(d).push(d).drop_last() =~= depths.push(d));
    assert(queue_weight(nodes, queue.push(f), depths.push(d)) == queue_weight(nodes, queue, depths)
        + subtree_size(nodes, f as int, d));
}

/// The node at which a breadth-first walk of the queued subtrees stops: the
/// nodes are taken in queue order, one whose box `accepts` rejects is
/// skipped, an interior node queues its children at the back, and the first
/// leaf whose box is accepted is the answer (`None` when the queue runs out,
/// or at a node the walk cannot follow within the depth beside it).
pub open spec fn walk_stop<B>(
    nodes: Seq<Node<B>>,
    queue: Seq<usize>,
    depths: Seq<nat>,
    accepts: spec_fn(B) -> bool,
) -> Option<int>
    decreases queue_weight(nodes, queue, depths),
{
    if queue.len() == 0 || depths.len() != queue.len() {
        None
    } else {
        let i = queue[0] as int;
        let d = depths[0];
        let rest = queue.drop_first();
        let rest_depths = depths.drop_first();
        proof {
            lemma_queue_weight_front(nodes, queue, depths);
        }
        if !(0 <= i < nodes.len()) {
            None
        } else if !accepts(nodes[i].bbox) {
            walk_stop(nodes, rest, rest_depths, accepts)
        } else if nodes[i].primitive_count != 0 {
            Some(i)
        } else if d > 0 && nodes[i].first_idx + 1 < nodes.len() && nodes[i].first_idx + 1
            <= usize::MAX {
            let f = nodes[i].first_idx as usize;
            proof {
                lemma_queue_weight_push2(nodes, rest, rest_depths, f, (f + 1) as usize, (d - 1) as nat);
            }
            walk_stop(
                nodes,
                rest.push(f).push((f + 1) as usize),
                rest_depths.push((d - 1) as nat).push((d - 1) as nat),
                accepts,
            )
        } else {
            None
        }
    }
}

/// A breadth-first walk stops only at a leaf whose box is accepted, and a
/// walk whose queue holds no node stops nowhere.
pub proof fn lemma_walk_stop_at_accepted_leaf<B>(
    nodes: Seq<Node<B>>,
    queue: Seq<usize>,
    depths: Seq<nat>,
    accepts: spec_fn(B) -> bool,
)
    ensures
        walk_stop(nodes, queue, depths, accepts) matches Some(n) ==> {
            &&& 0 <= n < nodes.len()
            &&& nodes[n].primitive_count != 0
            &&& accepts(nodes[n].bbox)
        },
        queue.len() == 0 ==> walk_stop(nodes, queue, depths, accepts) is None,
    decreases queue_weight(nodes, queue, depths),
{
    if queue.len() > 0 && depths.len() == queue.len() {
        let i = queue[0] as int;
        let d = depths[0];
        let rest = queue.drop_first();
        let rest_depths = depths.drop_first();
        lemma_queue_weight_front(nodes, queue, depths);
        if 0 <= i < nodes.len() {
            if !accepts(nodes[i].bbox) {
                lemma_walk_stop_at_accepted_leaf(nodes, rest, rest_depths, accepts);
            } else if nodes[i].primitive_count == 0 && d > 0 && nodes[i].first_idx + 1 < nodes.len()
                && nodes[i].first_idx + 1 <= usize::MAX {
                let f = nodes[i].first_idx as usize;
                lemma_queue_weight_push2(nodes, rest, rest_depths, f, (f + 1) as usize, (d - 1) as nat);
                lemma_walk_stop_at_accepted_leaf(
                    nodes,
                    rest.push(f).push((f + 1) as usize),
                    rest_depths.push((d - 1) as nat).push((d - 1) as nat),
                    accepts,
                );
            }
        }
    }
}

/// What `model_hit` gives for each primitive of the leaf `node`, in the
/// order the leaf covers them.
pub open spec fn leaf_hits<B, M, H, FM: Fn(&M) -> Option<H>>(
    node: Node<B>,
    order: Seq<usize>,
    models: Seq<M>,
    model_hit: &FM,
) -> Seq<Option<H>> {
    Seq::new(
        node.primitive_count as nat,
        |j: int|
            choose|r: Option<H>|
                #[trigger] model_hit.ensures((&models[order[node.first_idx + j] as int],), r),
    )
}

/// The hit kept after going through `hits` in order: a hit replaces the one
/// kept so far when there is none yet or when it is `closer`.
pub open spec fn closest_hit<H>(hits: Seq<Option<H>>, closer: spec_fn(H, H) -> bool) -> Option<H>
    decreases hits.len(),
{
    if hits.len() == 0 {
        None
    } else {
        let kept = closest_hit(hits.drop_last(), closer);
        match hits.last() {
            Some(x) => match kept {
                Some(y) => if closer(x, y) {
                    Some(x)
                } else {
                    kept
                },
                None => Some(x),
            },
            None => kept,
        }
    }
}

/// `closer` is a strict order: no hit is closer than itself, and a hit closer
/// than one that is closer than a third is closer than the third.
pub open spec fn strict_order<H>(closer: spec_fn(H, H) -> bool) -> bool {
    &&& forall|x: H| !#[trigger] closer(x, x)
    &&& forall|x: H, y: H, z: H| #[trigger] closer(x, y) && #[trigger] closer(y, z) ==> closer(x, z)
}

/// The hit kept from a leaf's primitives: there is one exactly when some
/// primitive is hit, it is the hit of one of them, and a miss never changes
/// it.  When `closer` is a strict order (as "nearer along the ray" is), no
/// primitive's hit is closer than the one kept.
pub proof fn lemma_closest_hit<H>(hits: Seq<Option<H>>, closer: spec_fn(H, H) -> bool)
    ensures
        (closest_hit(hits, closer) is Some) == (exists|j: int| 0 <= j < hits.len() && #[trigger] hits[j] is Some),
        closest_hit(hits, closer) matches Some(h) ==> exists|j: int|
            0 <= j < hits.len() && #[trigger] hits[j] == Some(h),
        closest_hit(hits.push(None), closer) == closest_hit(hits, closer),
        strict_order(closer) ==> (closest_hit(hits, closer) matches Some(h) ==> forall|j: int|
            0 <= j < hits.len() ==> (#[trigger] hits[j] matches Some(x) ==> !closer(x, h))),
    decreases hits.len(),
{
    assert(hits.push(None).drop_last() =~= hits);
    if hits.len() > 0 {
        let rest = hits.drop_last();
        lemma_closest_hit(rest, closer);
        let kept = closest_hit(rest, closer);
        let last = hits.last();
        assert forall|j: int| 0 <= j < rest.len() implies #[trigger] rest[j] == hits[j] by {}
        if exists|j: int| 0 <= j < rest.len() && #[trigger] rest[j] is Some {
            let j = choose|j: int| 0 <= j < rest.len() && #[trigger] rest[j] is Some;
            assert(hits[j] is Some);
        }
        if exists|j: int| 0 <= j < hits.len() && #[trigger] hits[j] is Some {
            let j = choose|j: int| 0 <= j < hits.len() && #[trigger] hits[j] is Some;
            if j < hits.len() - 1 {
                assert(rest[j] is Some);
            }
        }
        match closest_hit(hits, closer) {
            Some(h) => {
                if last == Some(h) {
                    assert(hits[hits.len() - 1] == Some(h));
                } else {
                    assert(kept == Some(h));
                    let j = choose|j: int| 0 <= j < rest.len() && #[trigger] rest[j] == Some(h);
                    assert(hits[j] == Some(h));
                }
                if strict_order(closer) {
                    assert forall|j: int| 0 <= j < hits.len() implies (#[trigger] hits[j] matches Some(
                        x,
                    ) ==> !closer(x, h)) by {
                        if let Some(x) = hits[j] {
                            if j == hits.len() - 1 {
                                match kept {
                                    Some(y) => {
                                        if !closer(x, y) {
                                            assert(h == y);
                                        } else {
                                            assert(h == x);
                                        }
                                    },
                                    None => {
                                        assert(h == x);
                                    },
                                }
                            } else {
                                assert(rest[j] == Some(x));
                                match kept {
                                    Some(y) => {
                                        assert(!closer(x, y));
                                        if h != y {
                                            assert(last == Some(h) && closer(h, y));
                                            if closer(x, h) {
                                                assert(closer(x, y));
                                            }
                                        }
                                    },
                                    None => {
                                        assert(rest[j] is Some);
                                    },
                                }
                            }
                        }
                    }
                }
            },
            None => {},
        }
    }
}

/// A hierarchy laid out by [`build_layout`] over `prim_count` primitives can
/// be walked by [`Bvh::hit`]: the root is a leaf inside the primitive order,
/// and every entry of the order names one of the primitives.
pub proof fn lemma_layout_is_walkable<B>(nodes: Seq<Node<B>>, order: Seq<usize>, prim_count: nat)
    requires
        1 <= prim_count <= u32::MAX,
        nodes.len() == 2 * prim_count - 1,
        nodes[0].primitive_count == prim_count,
        nodes[0].first_idx == 0,
        order.len() == prim_count,
        order.to_multiset() == Seq::new(prim_count, |i: int| i as usize).to_multiset(),
    ensures
        subtree_ok(nodes, order.len() as int, 0, 0),
        walkable_from_root(nodes, order.len() as int),
        forall|i: int| 0 <= i < order.len() ==> #[trigger] order[i] < prim_count,
{
    let all = Seq::new(prim_count, |i: int| i as usize);
    assert(subtree_ok(nodes, order.len() as int, 0, 0));
    assert forall|i: int| 0 <= i < order.len() implies #[trigger] order[i] < prim_count by {
        assert(order.contains(order[i]));
        assert(order.to_multiset().count(order[i]) > 0);
        assert(all.to_multiset().count(order[i]) > 0);
        assert(all.contains(order[i]));
        let j = choose|j: int| 0 <= j < all.len() && all[j] == order[i];
        assert(all[j] == j as usize);
    }
}

/// The node array of a hierarchy over `prim_count` primitives before any
/// split: `2 * prim_count - 1` nodes with bounding box `empty`, the root
/// covering every primitive from 0 on.
pub fn initial_nodes<B: Copy>(prim_count: usize, empty: B) -> (nodes: Vec<Node<B>>)
    requires
        1 <= prim_count,
        2 * prim_count <= usize::MAX,
    ensures
        nodes.len() == 2 * prim_count - 1,
        nodes[0] == (Node { bbox: empty, primitive_count: #[verifier::truncate] (prim_count as u32), first_idx: 0 }),
        forall|i: int|
            1 <= i < nodes.len() ==> #[trigger] nodes[i] == (Node {
                bbox: empty,
                primitive_count: 0,
                first_idx: 0,
            }),
{
    let node_count = 2 * prim_count - 1;
    let mut nodes: Vec<Node<B>> = Vec::new();
    nodes.push(Node { bbox: empty, primitive_count: #[verifier::truncate] (prim_count as u32), first_idx: 0 });
    let mut i: usize = 1;
    while i < node_count
        invariant
            1 <= i <= node_count,
            nodes.len() == i,
            nodes[0] == (Node { bbox: empty, primitive_count: #[verifier::truncate] (prim_count as u32), first_idx: 0 }),
            forall|j: int|
                1 <= j < i ==> #[trigger] nodes[j] == (Node {
                    bbox: empty,
                    primitive_count: 0,
                    first_idx: 0,
                }),
        decreases node_count - i,
    {
        nodes.push(Node { bbox: empty, primitive_count: 0, first_idx: 0 });
        i += 1;
    }
    nodes
}

/// The primitive order before any sorting: `0, 1, ..., prim_count - 1`.
pub fn initial_prim_indices(prim_count: usize) -> (indices: Vec<usize>)
    ensures
        indices.len() == prim_count,
        forall|i: int| 0 <= i < prim_count ==> #[trigger] indices[i] == i,
{
    let mut indices: Vec<usize> = Vec::new();
    let mut i: usize = 0;
    while i < prim_count
        invariant
            i <= prim_count,
            indices.len() == i,
            forall|j: int| 0 <= j < i ==> #[trigger] indices[j] == j,
        decreases prim_count - i,
    {
        indices.push(i);
        i += 1;
    }
    indices
}

/// The key of the primitive at position `i` of the primitive order.
pub open spec fn key_at(keys: Seq<u32>, indices: Seq<usize>, i: int) -> u32 {
    keys[indices[i] as int]
}

/// Positions `start..end` of the primitive order are sorted by key.
pub open spec fn sorted_by_key(keys: Seq<u32>, indices: Seq<usize>, start: int, end: int) -> bool {
    forall|a: int, b: int|
        start <= a < b < end ==> #[trigger] key_at(keys, indices, a) <= #[trigger] key_at(
            keys,
            indices,
            b,
        )
}

/// Every position `start..end` of the primitive order names a primitive
/// that has a key.
pub open spec fn keyed(keys: Seq<u32>, indices: Seq<usize>, start: int, end: int) -> bool {
    forall|i: int| start <= i < end ==> (#[trigger] indices[i] as int) < keys.len()
}

proof fn lemma_swap_to_multiset<A>(s: Seq<A>, i: int, j: int)
    requires
        0 <= i < s.len(),
        0 <= j < s.len(),
    ensures
        s.update(i, s[j]).update(j, s[i]).to_multiset() =~= s.to_multiset(),
{
    broadcast use vstd::seq_lib::to_multiset_update;

    let t = s.update(i, s[j]);
    assert(t[j] == s[j]);
    assert(t.to_multiset() =~= s.to_multiset().insert(s[j]).remove(s[i]));
    assert(t.update(j, s[i]).to_multiset() =~= t.to_multiset().insert(s[i]).remove(s[j]));
}

/// Sorts positions `start..end` of the primitive order by the keys of the
/// primitives they name; the rest of the order is left as it is.  Primitives
/// with equal keys may come out in any order.
pub fn sort_primitives(indices: &mut Vec<usize>, start: usize, end: usize, keys: &Vec<u32>)
    requires
        start <= end <= old(indices).len(),
        keyed(keys@, old(indices)@, start as int, end as int),
    ensures
        final(indices).len() == old(indices).len(),
        final(indices)@.to_multiset() == old(indices)@.to_multiset(),
        forall|i: int|
            0 <= i < old(indices).len() && !(start <= i < end) ==> #[trigger] final(indices)@[i]
                == old(indices)@[i],
        keyed(keys@, final(indices)@, start as int, end as int),
        sorted_by_key(keys@, final(indices)@, start as int, end as int),
{
    if end - start < 2 {
        return;
    }
    let ghost unsorted = indices@;
    let mut i: usize = start + 1;
    while i < end
        invariant
            start < i <= end <= indices.len(),
            indices.len() == unsorted.len(),
            indices@.to_multiset() == unsorted.to_multiset(),
            forall|k: int|
                0 <= k < unsorted.len() && !(start <= k < end) ==> #[trigger] indices@[k]
                    == unsorted[k],
            keyed(keys@, indices@, start as int, end as int),
            sorted_by_key(keys@, indices@, start as int, i as int),
        decreases end - i,
    {
        let mut j: usize = i;
        while j > start && keys[indices[j - 1]] > keys[indices[j]]
            invariant
                start <= j <= i < end <= indices.len(),
                indices.len() == unsorted.len(),
                indices@.to_multiset() == unsorted.to_multiset(),
                forall|k: int|
                    0 <= k < unsorted.len() && !(start <= k < end) ==> #[trigger] indices@[k]
                        == unsorted[k],
                keyed(keys@, indices@, start as int, end as int),
                forall|a: int, b: int|
                    start <= a < b <= i && a != j && b != j ==> #[trigger] key_at(
                        keys@,
                        indices@,
                        a,
                    ) <= #[trigger] key_at(keys@, indices@, b),
                forall|b: int|
                    j < b <= i ==> key_at(keys@, indices@, j as int) <= #[trigger] key_at(
                        keys@,
                        indices@,
                        b,
                    ),
            decreases j,
        {
            let ghost before = indices@;
            let upper = indices[j];
            let lower = indices[j - 1];
            indices.set(j - 1, upper);
            indices.set(j, lower);
            proof {
                lemma_swap_to_multiset(before, j - 1, j as int);
                assert(indices@ == before.update(j - 1, before[j as int]).update(
                    j as int,
                    before[j - 1],
                ));
                assert forall|a: int, b: int|
                    start <= a < b <= i && a != j - 1 && b != j - 1 implies #[trigger] key_at(
                    keys@,
                    indices@,
                    a,
                ) <= #[trigger] key_at(keys@, indices@, b) by {
                    if a == j {
                        assert(key_at(keys@, before, j - 1) <= key_at(keys@, before, b));
                    } else if b == j {
                        assert(key_at(keys@, before, a) <= key_at(keys@, before, j - 1));
                    } else {
                        assert(key_at(keys@, before, a) <= key_at(keys@, before, b));
                    }
                }
                assert forall|b: int| j - 1 < b <= i implies key_at(
                    keys@,
                    indices@,
                    j - 1,
                ) <= #[trigger] key_at(keys@, indices@, b) by {
                    if b > j {
                        assert(key_at(keys@, before, j as int) <= key_at(keys@, before, b));
                    }
                }
            }
            j -= 1;
        }
        proof {
            assert forall|a: int, b: int|
                start <= a < b < i + 1 implies #[trigger] key_at(keys@, indices@, a)
                <= #[trigger] key_at(keys@, indices@, b) by {
                if b == j && a < j {
                    assert(key_at(keys@, indices@, a) <= key_at(keys@, indices@, j - 1));
                }
            }
        }
        i += 1;
    }
}


/// `node` with its primitive count and first index replaced.
pub open spec fn with_range<B>(node: Node<B>, primitive_count: u32, first_idx: u32) -> Node<B> {
    Node { bbox: node.bbox, primitive_count, first_idx }
}

/// What [`split_node`] leaves in the node array when it splits: the left
/// child at `left` gets the first `split - first_idx` primitives of the node,
/// the child after it the rest from `split` on, and the node itself becomes
/// an interior node pointing at `left`.
pub open spec fn split_nodes<B>(nodes: Seq<Node<B>>, node_idx: int, split: int, left: int) -> Seq<
    Node<B>,
> {
    let node = nodes[node_idx];
    let left_count = split - node.first_idx;
    let n1 = nodes.update(left, with_range(nodes[left], left_count as u32, node.first_idx));
    let n2 = n1.update(
        left + 1,
        with_range(n1[left + 1], (node.primitive_count - left_count) as u32, split as u32),
    );
    n2.update(node_idx, with_range(n2[node_idx], 0, left as u32))
}

/// Splits the leaf `node_idx` at position `split` of the primitive order
/// into two children taken from `*node_count` on.  When `split` leaves one
/// side empty no split is possible and nothing changes.
pub fn split_node<B: Copy>(
    nodes: &mut Vec<Node<B>>,
    node_idx: usize,
    split: usize,
    node_count: &mut usize,
) -> (children: Option<(usize, usize)>)
    requires
        node_idx < old(nodes).len(),
        old(nodes)[node_idx as int].first_idx <= split <= old(nodes)[node_idx as int].first_idx
            + old(nodes)[node_idx as int].primitive_count,
        split != old(nodes)[node_idx as int].first_idx && split != old(nodes)[node_idx as int].first_idx
            + old(nodes)[node_idx as int].primitive_count ==> *old(node_count) + 2 <= old(nodes).len(),
    ensures
        ({
            let node = old(nodes)[node_idx as int];
            if split == node.first_idx || split == node.first_idx + node.primitive_count {
                &&& children is None
                &&& final(nodes)@ == old(nodes)@
                &&& *final(node_count) == *old(node_count)
            } else {
                &&& children == Some((*old(node_count), (*old(node_count) + 1) as usize))
                &&& *final(node_count) == *old(node_count) + 2
                &&& final(nodes)@ == split_nodes(
                    old(nodes)@,
                    node_idx as int,
                    split as int,
                    *old(node_count) as int,
                )
            }
        }),
{
    let node = nodes[node_idx];
    let left_count = split - node.first_idx as usize;
    if left_count == 0 || left_count == node.primitive_count as usize {
        return None;
    }
    let left_child_idx = *node_count;
    let right_child_idx = *node_count + 1;
    *node_count += 2;

    let first_idx = node.first_idx;
    let primitive_count = node.primitive_count;

    let left = nodes[left_child_idx];
    nodes.set(
        left_child_idx,
        Node { bbox: left.bbox, primitive_count: left_count as u32, first_idx },
    );
    let right = nodes[right_child_idx];
    nodes.set(
        right_child_idx,
        Node {
            bbox: right.bbox,
            primitive_count: primitive_count - left_count as u32,
            first_idx: #[verifier::truncate] (split as u32),
        },
    );
    let current = nodes[node_idx];
    nodes.set(
        node_idx,
        Node {
            bbox: current.bbox,
            primitive_count: 0,
            first_idx: #[verifier::truncate] (left_child_idx as u32),
        },
    );
    Some((left_child_idx, right_child_idx))
}

/// A split hands the first `split - first_idx` primitives of the node to
/// the left child and the rest, from `split` on, to the right child; the
/// node becomes an interior node pointing at the left child.
pub proof fn lemma_split_partitions<B>(nodes: Seq<Node<B>>, node_idx: int, split: int, left: int)
    requires
        0 <= node_idx < nodes.len(),
        0 <= left,
        left + 1 < nodes.len(),
        node_idx != left,
        node_idx != left + 1,
        left <= u32::MAX,
        nodes[node_idx].first_idx <= split <= nodes[node_idx].first_idx
            + nodes[node_idx].primitive_count,
        nodes[node_idx].first_idx + nodes[node_idx].primitive_count <= u32::MAX,
    ensures
        ({
            let node = nodes[node_idx];
            let after = split_nodes(nodes, node_idx, split, left);
            &&& after.len() == nodes.len()
            &&& after[left].first_idx == node.first_idx
            &&& after[left + 1].first_idx == split
            &&& after[left].first_idx + after[left].primitive_count == after[left + 1].first_idx
            &&& after[left].primitive_count + after[left + 1].primitive_count == node.primitive_count
            &&& !(after[node_idx].primitive_count != 0)
            &&& after[node_idx].first_idx == left
            &&& forall|i: int|
                0 <= i < nodes.len() && i != node_idx && i != left && i != left + 1 ==> #[trigger] after[i]
                    == nodes[i]
        }),
{
}

/// Every primitive named anywhere in the primitive order has a key on each
/// axis.
pub open spec fn keyed_on_all_axes(keys: Seq<Vec<u32>>, indices: Seq<usize>) -> bool {
    forall|a: int, i: int|
        0 <= a < keys.len() && 0 <= i < indices.len() ==> (#[trigger] indices[i] as int) < #[trigger] keys[a].len()
}

/// Builds the subtree rooted at leaf `node_idx`.  Its bounding box is reset
/// to `empty`; a leaf of more than two primitives then gets the box and the
/// split axis that `bounds(prim_indices, first_idx, primitive_count)`
/// reports, and its primitives are sorted by their keys on that axis.  The
/// node is then split at the start of its range, which leaves one side empty,
/// so it stays a leaf with its range and no child is built.
pub fn build_recursive<B: Copy, F: Fn(&Vec<usize>, u32, u32) -> (B, usize)>(
    nodes: &mut Vec<Node<B>>,
    prim_indices: &mut Vec<usize>,
    keys: &Vec<Vec<u32>>,
    node_idx: usize,
    node_count: &mut usize,
    empty: B,
    bounds: &F,
)
    requires
        node_idx < old(nodes).len(),
        old(nodes)[node_idx as int].first_idx + old(nodes)[node_idx as int].primitive_count <= old(
            prim_indices,
        ).len(),
        keyed_on_all_axes(keys@, old(prim_indices)@),
        forall|indices: &Vec<usize>, first: u32, count: u32| #[trigger]
            bounds.requires((indices, first, count)),
        forall|indices: &Vec<usize>, first: u32, count: u32, r: (B, usize)|
            #[trigger] bounds.ensures((indices, first, count), r) ==> r.1 < keys.len(),
    ensures
        final(nodes).len() == old(nodes).len(),
        forall|i: int|
            0 <= i < old(nodes).len() && i != node_idx ==> #[trigger] final(nodes)[i] == old(nodes)[i],
        final(nodes)[node_idx as int].primitive_count == old(nodes)[node_idx as int].primitive_count,
        final(nodes)[node_idx as int].first_idx == old(nodes)[node_idx as int].first_idx,
        *final(node_count) == *old(node_count),
        final(prim_indices).len() == old(prim_indices).len(),
        final(prim_indices)@.to_multiset() == old(prim_indices)@.to_multiset(),
        keyed_on_all_axes(keys@, final(prim_indices)@),
        ({
            let first = old(nodes)[node_idx as int].first_idx as int;
            let count = old(nodes)[node_idx as int].primitive_count as int;
            &&& forall|i: int|
                0 <= i < old(prim_indices).len() && !(first <= i < first + count)
                    ==> #[trigger] final(prim_indices)@[i] == old(prim_indices)@[i]
            &&& count <= 2 ==> final(nodes)[node_idx as int].bbox == empty && final(prim_indices)@
                == old(prim_indices)@
            &&& count > 2 ==> exists|r: (B, usize)|
                #[trigger] bounds.ensures((&*old(prim_indices), first as u32, count as u32), r)
                    && final(nodes)[node_idx as int].bbox == r.0 && sorted_by_key(
                    keys@[r.1 as int]@,
                    final(prim_indices)@,
                    first,
                    first + count,
                )
        }),
    decreases old(nodes)[node_idx as int].primitive_count,
{
    let node = nodes[node_idx];
    nodes.set(node_idx, Node { bbox: empty, primitive_count: node.primitive_count, first_idx: node.first_idx });
    if node.primitive_count <= 2 {
        return;
    }
    let (bbox, axis) = bounds(&*prim_indices, node.first_idx, node.primitive_count);
    nodes.set(node_idx, Node { bbox, primitive_count: node.primitive_count, first_idx: node.first_idx });

    let start = node.first_idx as usize;
    let end = start + node.primitive_count as usize;
    let ghost before_sort = prim_indices@;
    proof {
        assert forall|i: int| start <= i < end implies (#[trigger] prim_indices@[i] as int) < keys@[axis as int].len() by {
            assert(prim_indices@[i] < keys[axis as int].len());
        }
    }
    sort_primitives(prim_indices, start, end, &keys[axis]);
    proof {
        assert forall|a: int, i: int|
            0 <= a < keys.len() && 0 <= i < prim_indices.len() implies (#[trigger] prim_indices@[i] as int)
            < #[trigger] keys[a].len() by {
            if start <= i < end {
                assert(prim_indices@.to_multiset().count(prim_indices@[i]) > 0);
                assert(before_sort.to_multiset().count(prim_indices@[i]) > 0);
                let j = choose|j: int| 0 <= j < before_sort.len() && before_sort[j] == prim_indices@[i];
                assert(before_sort[j] < keys[a].len());
            } else {
                assert(prim_indices@[i] == before_sort[i]);
            }
        }
    }

    let split = start;
    match split_node(nodes, node_idx, split, node_count) {
        Some((left, right)) => {
            build_recursive(nodes, prim_indices, keys, left, node_count, empty, bounds);
            build_recursive(nodes, prim_indices, keys, right, node_count, empty, bounds);
        },
        None => {},
    }
}

/// Builds the hierarchy over `prim_count` primitives: the primitive order
/// starts as `0..prim_count` and the node array as [`initial_nodes`], then
/// the root's subtree is built with [`build_recursive`].  The root stays the
/// one leaf and covers every primitive, each exactly once in the order.
pub fn build_layout<B: Copy, F: Fn(&Vec<usize>, u32, u32) -> (B, usize)>(
    prim_count: usize,
    keys: &Vec<Vec<u32>>,
    empty: B,
    bounds: &F,
) -> (layout: (Vec<Node<B>>, Vec<usize>))
    requires
        1 <= prim_count <= u32::MAX,
        2 * prim_count <= usize::MAX,
        forall|a: int| 0 <= a < keys.len() ==> #[trigger] keys[a].len() >= prim_count,
        forall|indices: &Vec<usize>, first: u32, count: u32| #[trigger]
            bounds.requires((indices, first, count)),
        forall|indices: &Vec<usize>, first: u32, count: u32, r: (B, usize)|
            #[trigger] bounds.ensures((indices, first, count), r) ==> r.1 < keys.len(),
    ensures
        layout.0.len() == 2 * prim_count - 1,
        layout.0[0].primitive_count == prim_count,
        layout.0[0].first_idx == 0,
        layout.1.len() == prim_count,
        layout.1@.to_multiset() == Seq::new(prim_count as nat, |i: int| i as usize).to_multiset(),
        prim_count <= 2 ==> layout.0[0].bbox == empty && layout.1@ == Seq::new(
            prim_count as nat,
            |i: int| i as usize,
        ),
        prim_count > 2 ==> exists|initial: Vec<usize>, r: (B, usize)|
            #![trigger bounds.ensures((&initial, 0u32, prim_count as u32), r)]
            initial@ == Seq::new(prim_count as nat, |i: int| i as usize) && bounds.ensures(
                (&initial, 0u32, prim_count as u32),
                r,
            ) && layout.0[0].bbox == r.0 && sorted_by_key(
                keys@[r.1 as int]@,
                layout.1@,
                0,
                prim_count as int,
            ),
        forall|i: int| 1 <= i < layout.0.len() ==> #[trigger] layout.0[i] == (Node {
            bbox: empty,
            primitive_count: 0,
            first_idx: 0,
        }),
{
    let mut prim_indices = initial_prim_indices(prim_count);
    let mut nodes = initial_nodes(prim_count, empty);
    let mut node_count: usize = 1;
    proof {
        assert(prim_indices@ =~= Seq::new(prim_count as nat, |i: int| i as usize));
        assert forall|a: int, i: int|
            0 <= a < keys.len() && 0 <= i < prim_indices.len() implies (#[trigger] prim_indices@[i] as int)
            < #[trigger] keys[a].len() by {
            assert(prim_indices@[i] == i);
        }
    }
    let ghost initial = prim_indices;
    build_recursive(&mut nodes, &mut prim_indices, keys, 0, &mut node_count, empty, bounds);
    proof {
        if prim_count > 2 {
            let r = choose|r: (B, usize)|
                #[trigger] bounds.ensures((&initial, 0u32, prim_count as u32), r)
                    && nodes[0].bbox == r.0 && sorted_by_key(
                    keys@[r.1 as int]@,
                    prim_indices@,
                    0,
                    prim_count as int,
                );
            assert(bounds.ensures((&initial, 0u32, prim_count as u32), r));
        }
    }
    (nodes, prim_indices)
}

/// Sort key of an `f32` given by its bit pattern: the key of the sign bit
/// set is the complement of the bits, otherwise the bits with the sign bit
/// set.
pub open spec fn spec_total_order_key(bits: u32) -> u32 {
    if bits >= 0x8000_0000 {
        !bits
    } else {
        bits | 0x8000_0000
    }
}

/// Maps the bit pattern of an `f32` to an unsigned key; keys compare as
/// `f32::total_cmp` compares the values (see [`lemma_total_order_key_order`]).
pub fn total_order_key(bits: u32) -> (key: u32)
    ensures
        key == spec_total_order_key(bits),
{
    if bits & 0x8000_0000 != 0 {
        proof {
            assert(bits & 0x8000_0000 != 0 ==> bits >= 0x8000_0000) by (bit_vector);
        }
        !bits
    } else {
        proof {
            assert(bits & 0x8000_0000 == 0 ==> bits < 0x8000_0000) by (bit_vector);
        }
        bits | 0x8000_0000
    }
}

/// The signed integer by which `f32::total_cmp` orders an `f32` with bit
/// pattern `bits`: all bits but the sign flipped when the sign bit is set,
/// read as an `i32`.
pub open spec fn total_order_rank(bits: u32) -> i32 {
    if bits >= 0x8000_0000 {
        (bits ^ 0x7FFF_FFFF) as i32
    } else {
        bits as i32
    }
}

/// Keys order bit patterns exactly as their total-order ranks do, so
/// sorting by key sorts by `f32::total_cmp`.
pub proof fn lemma_total_order_key_order(a: u32, b: u32)
    ensures
        (spec_total_order_key(a) < spec_total_order_key(b)) == (total_order_rank(a) < total_order_rank(b)),
        (spec_total_order_key(a) == spec_total_order_key(b)) == (a == b),
{
    assert((if a >= 0x8000_0000 { !a } else { a | 0x8000_0000 }) < (if b >= 0x8000_0000 {
        !b
    } else {
        b | 0x8000_0000
    }) <==> (if a >= 0x8000_0000 { (a ^ 0x7FFF_FFFF) as i32 } else { a as i32 }) < (if b
        >= 0x8000_0000 {
        (b ^ 0x7FFF_FFFF) as i32
    } else {
        b as i32
    })) by (bit_vector);
    assert(((if a >= 0x8000_0000 { !a } else { a | 0x8000_0000 }) == (if b >= 0x8000_0000 {
        !b
    } else {
        b | 0x8000_0000
    })) <==> a == b) by (bit_vector);
}

} // verus!
