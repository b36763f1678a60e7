//! The output tree of a logical-layer plan: persistent groups, and the tracks inside them.
use vstd::prelude::*;

use super::{AssociationReport, GroupSegment, LogicalLayerTrack};

verus! {

/// A logical group or track in a derived write plan.
#[derive(Debug, PartialEq, Eq)]
pub enum PlannedNode {
    /// A group reconstructed from a persistent source group.
    Group {
        /// Output group name.
        name: String,
        /// Representative source group ID, when available.
        source_layer_id: Option<u32>,
        /// Child nodes in output order.
        children: Vec<PlannedNode>,
    },
    /// A reference to one logical track.
    Track {
        /// Index into the plan's tracks.
        track_id: usize,
    },
}

/// A derived write plan that references source layers by ID without copying pixels.
#[derive(Debug, PartialEq, Eq)]
pub struct LayerWritePlan {
    /// Top-level logical groups and tracks in output order.
    pub root_nodes: Vec<PlannedNode>,
    /// Logical tracks addressed by `PlannedNode::Track`.
    pub tracks: Vec<LogicalLayerTrack>,
    /// Explainable decisions made while constructing the plan.
    pub report: AssociationReport,
}

/// A node of a tree under construction; a group keeps the name key it is merged by.
#[derive(Debug)]
pub enum NodeBuilder {
    /// A group, with the key of the segment that opened it.
    Group {
        /// Copy-stripped name key.
        key: String,
        /// Output group name.
        name: String,
        /// Source group ID.
        source_layer_id: Option<u32>,
        /// Child nodes in insertion order.
        children: Vec<NodeBuilder>,
    },
    /// A reference to one logical track.
    Track {
        /// Track index.
        track_id: usize,
    },
}

/// The shape of a planned tree as the contracts see it. In a finished plan every key is
/// empty; while building, a group's key is the key it is merged by.
pub enum PlanShape {
    /// A group with its key, name, source group and children.
    Group { key: Seq<char>, name: Seq<char>, source_layer_id: Option<u32>, children: Seq<PlanShape> },
    /// A track reference.
    Track { track_id: usize },
}

/// The shape of a node under construction.
pub open spec fn builder_shape(node: NodeBuilder) -> PlanShape
    decreases node,
{
    match node {
        NodeBuilder::Group { key, name, source_layer_id, children } => {
            PlanShape::Group { key: key@, name: name@, source_layer_id, children: builder_shapes(children@) }
        },
        NodeBuilder::Track { track_id } => PlanShape::Track { track_id },
    }
}

/// The shapes of a list of nodes under construction.
pub open spec fn builder_shapes(nodes: Seq<NodeBuilder>) -> Seq<PlanShape>
    decreases nodes,
{
    if nodes.len() == 0 {
        Seq::empty()
    } else {
        seq![builder_shape(nodes[0])] + builder_shapes(nodes.subrange(1, nodes.len() as int))
    }
}

/// The shape of a finished node: every key is empty.
pub open spec fn planned_shape(node: PlannedNode) -> PlanShape
    decreases node,
{
    match node {
        PlannedNode::Group { name, source_layer_id, children } => {
            PlanShape::Group { key: Seq::empty(), name: name@, source_layer_id, children: planned_shapes(children@) }
        },
        PlannedNode::Track { track_id } => PlanShape::Track { track_id },
    }
}

/// The shapes of a list of finished nodes.
pub open spec fn planned_shapes(nodes: Seq<PlannedNode>) -> Seq<PlanShape>
    decreases nodes,
{
    if nodes.len() == 0 {
        Seq::empty()
    } else {
        seq![planned_shape(nodes[0])] + planned_shapes(nodes.subrange(1, nodes.len() as int))
    }
}

/// A shape with every key emptied.
pub open spec fn unkeyed(shape: PlanShape) -> PlanShape
    decreases shape,
{
    match shape {
        PlanShape::Group { key, name, source_layer_id, children } => {
            PlanShape::Group { key: Seq::empty(), name, source_layer_id, children: unkeyed_all(children) }
        },
        PlanShape::Track { track_id } => PlanShape::Track { track_id },
    }
}

/// Shapes with every key emptied.
pub open spec fn unkeyed_all(shapes: Seq<PlanShape>) -> Seq<PlanShape>
    decreases shapes,
{
    if shapes.len() == 0 {
        Seq::empty()
    } else {
        seq![unkeyed(shapes[0])] + unkeyed_all(shapes.subrange(1, shapes.len() as int))
    }
}

/// The first group among `shapes`, from index `from` on, whose key is `key`.
pub open spec fn find_group(shapes: Seq<PlanShape>, key: Seq<char>, from: int) -> Option<int>
    decreases shapes.len() - from,
{
    if from < 0 || from >= shapes.len() {
        None
    } else if shapes[from] matches PlanShape::Group { key: k, .. } && k == key {
        Some(from)
    } else {
        find_group(shapes, key, from + 1)
    }
}

/// The forest after placing track `track_id` under the groups of `path`: at each level the
/// first group whose key is the segment's key is entered, or a new group named after the
/// segment is appended; the track is appended at the end of the path.
pub open spec fn inserted(shapes: Seq<PlanShape>, path: Seq<GroupSegment>, track_id: usize) -> Seq<PlanShape>
    decreases path.len(),
{
    if path.len() == 0 {
        shapes.push(PlanShape::Track { track_id })
    } else {
        let segment = path[0];
        match find_group(shapes, segment.key@, 0) {
            Some(i) => match shapes[i] {
                PlanShape::Group { key, name, source_layer_id, children } => shapes.update(
                    i,
                    PlanShape::Group { key, name, source_layer_id, children: inserted(children, path.drop_first(), track_id) },
                ),
                PlanShape::Track { .. } => shapes,
            },
            None => shapes.push(
                PlanShape::Group {
                    key: segment.key@,
                    name: segment.name@,
                    source_layer_id: Some(segment.id),
                    children: inserted(Seq::empty(), path.drop_first(), track_id),
                },
            ),
        }
    }
}

/// The forest built by placing the tracks of `order`, in turn, under their group paths.
pub open spec fn built(paths: Seq<Vec<GroupSegment>>, order: Seq<usize>) -> Seq<PlanShape>
    decreases order.len(),
{
    if order.len() == 0 {
        Seq::empty()
    } else {
        inserted(built(paths, order.drop_last()), paths[order.last() as int]@, order.last())
    }
}

proof fn lemma_find_group(shapes: Seq<PlanShape>, key: Seq<char>, from: int)
    ensures
        find_group(shapes, key, from) matches Some(i) ==> from <= i < shapes.len() && (shapes[i] matches PlanShape::Group { key: k, .. } && k == key),
    decreases shapes.len() - from,
{
    if 0 <= from < shapes.len() {
        lemma_find_group(shapes, key, from + 1);
    }
}

proof fn lemma_builder_shapes(nodes: Seq<NodeBuilder>)
    ensures
        builder_shapes(nodes).len() == nodes.len(),
        forall|i: int| 0 <= i < nodes.len() ==> #[trigger] builder_shapes(nodes)[i] == builder_shape(nodes[i]),
    decreases nodes.len(),
{
    if nodes.len() > 0 {
        let rest = nodes.subrange(1, nodes.len() as int);
        lemma_builder_shapes(rest);
        assert forall|i: int| 0 <= i < nodes.len() implies #[trigger] builder_shapes(nodes)[i] == builder_shape(nodes[i]) by {
            if i > 0 {
                assert(rest[i - 1] == nodes[i]);
            }
        }
    }
}

pub proof fn lemma_planned_shapes(nodes: Seq<PlannedNode>)
    ensures
        planned_shapes(nodes).len() == nodes.len(),
        forall|i: int| 0 <= i < nodes.len() ==> #[trigger] planned_shapes(nodes)[i] == planned_shape(nodes[i]),
    decreases nodes.len(),
{
    if nodes.len() > 0 {
        let rest = nodes.subrange(1, nodes.len() as int);
        lemma_planned_shapes(rest);
        assert forall|i: int| 0 <= i < nodes.len() implies #[trigger] planned_shapes(nodes)[i] == planned_shape(nodes[i]) by {
            if i > 0 {
                assert(rest[i - 1] == nodes[i]);
            }
        }
    }
}

proof fn lemma_unkeyed_all(shapes: Seq<PlanShape>)
    ensures
        unkeyed_all(shapes).len() == shapes.len(),
        forall|i: int| 0 <= i < shapes.len() ==> #[trigger] unkeyed_all(shapes)[i] == unkeyed(shapes[i]),
    decreases shapes.len(),
{
    if shapes.len() > 0 {
        let rest = shapes.subrange(1, shapes.len() as int);
        lemma_unkeyed_all(rest);
        assert forall|i: int| 0 <= i < shapes.len() implies #[trigger] unkeyed_all(shapes)[i] == unkeyed(shapes[i]) by {
            if i > 0 {
                assert(rest[i - 1] == shapes[i]);
            }
        }
    }
}

/// Index of the first group node whose key is `key`.
fn group_position(nodes: &Vec<NodeBuilder>, key: &String) -> (found: Option<usize>)
    ensures
        match found {
            Some(i) => find_group(builder_shapes(nodes@), key@, 0) == Some(i as int) && i < nodes@.len(),
            None => find_group(builder_shapes(nodes@), key@, 0) is None,
        },
{
    proof {
        lemma_builder_shapes(nodes@);
    }
    let ghost shapes = builder_shapes(nodes@);
    let mut i: usize = 0;
    while i < nodes.len()
        invariant
            i <= nodes@.len(),
            shapes == builder_shapes(nodes@),
            shapes.len() == nodes@.len(),
            forall|q: int| 0 <= q < nodes@.len() ==> #[trigger] shapes[q] == builder_shape(nodes@[q]),
            find_group(shapes, key@, 0) == find_group(shapes, key@, i as int),
        decreases nodes@.len() - i,
    {
        let matched = match &nodes[i] {
            NodeBuilder::Group { key: k, .. } => *k == *key,
            NodeBuilder::Track { .. } => false,
        };
        if matched {
            return Some(i);
        }
        i = i + 1;
    }
    None
}

/// Places track `track_id` under the groups of `path[start..]`, entering at each level the
/// first group with the segment's key, or appending a new group named after the segment.
fn insert_track(nodes: &mut Vec<NodeBuilder>, path: &Vec<GroupSegment>, start: usize, track_id: usize)
    requires
        start <= path@.len(),
    ensures
        builder_shapes(final(nodes)@) == inserted(builder_shapes(old(nodes)@), path@.subrange(start as int, path@.len() as int), track_id),
    decreases path@.len() - start,
{
    let ghost before = nodes@;
    let ghost rest = path@.subrange(start as int, path@.len() as int);
    proof {
        lemma_builder_shapes(before);
    }
    if start == path.len() {
        nodes.push(NodeBuilder::Track { track_id });
        proof {
            lemma_builder_shapes(nodes@);
            assert(builder_shapes(nodes@) =~= builder_shapes(before).push(PlanShape::Track { track_id }));
        }
        return;
    }
    let segment = &path[start];
    assert(rest[0] == segment);
    assert(rest.drop_first() =~= path@.subrange(start as int + 1, path@.len() as int));
    match group_position(nodes, &segment.key) {
        Some(index) => {
            let node = nodes.remove(index);
            proof {
                assert(before[index as int] == node);
            }
            match node {
                NodeBuilder::Group { key, name, source_layer_id, children } => {
                    let mut children = children;
                    insert_track(&mut children, path, start + 1, track_id);
                    let ghost grown = children;
                    nodes.insert(index, NodeBuilder::Group { key, name, source_layer_id, children });
                    proof {
                        lemma_builder_shapes(nodes@);
                        assert(nodes@ =~= before.update(index as int, NodeBuilder::Group { key, name, source_layer_id, children: grown }));
                        assert(builder_shapes(nodes@) =~= inserted(builder_shapes(before), rest, track_id));
                    }
                },
                NodeBuilder::Track { track_id: other } => {
                    proof {
                        lemma_find_group(builder_shapes(before), segment.key@, 0);
                    }
                    nodes.insert(index, NodeBuilder::Track { track_id: other });
                    assert(false);
                },
            }
        },
        None => {
            let mut children: Vec<NodeBuilder> = Vec::new();
            insert_track(&mut children, path, start + 1, track_id);
            proof {
                lemma_builder_shapes(Seq::<NodeBuilder>::empty());
                assert(builder_shapes(Seq::<NodeBuilder>::empty()) =~= Seq::<PlanShape>::empty());
            }
            let key = segment.key.clone();
            let name = segment.name.clone();
            nodes.push(NodeBuilder::Group { key, name, source_layer_id: Some(segment.id), children });
            proof {
                lemma_builder_shapes(nodes@);
                assert(builder_shapes(nodes@) =~= inserted(builder_shapes(before), rest, track_id));
            }
        },
    }
}

/// Drops the merge keys of a finished tree.
fn finish(nodes: &Vec<NodeBuilder>) -> (finished: Vec<PlannedNode>)
    ensures
        planned_shapes(finished@) == unkeyed_all(builder_shapes(nodes@)),
    decreases nodes@,
{
    proof {
        lemma_builder_shapes(nodes@);
        lemma_unkeyed_all(builder_shapes(nodes@));
    }
    let mut finished: Vec<PlannedNode> = Vec::new();
    let mut i: usize = 0;
    while i < nodes.len()
        invariant
            i <= nodes@.len(),
            finished@.len() == i,
            builder_shapes(nodes@).len() == nodes@.len(),
            unkeyed_all(builder_shapes(nodes@)).len() == nodes@.len(),
            forall|q: int| 0 <= q < nodes@.len() ==> #[trigger] builder_shapes(nodes@)[q] == builder_shape(nodes@[q]),
            forall|q: int| 0 <= q < nodes@.len() ==> #[trigger] unkeyed_all(builder_shapes(nodes@))[q] == unkeyed(builder_shapes(nodes@)[q]),
            forall|q: int| 0 <= q < i ==> #[trigger] planned_shape(finished@[q]) == unkeyed(builder_shape(nodes@[q])),
        decreases nodes@.len() - i,
    {
        let node = match &nodes[i] {
            NodeBuilder::Group { key, name, source_layer_id, children } => {
                proof {
                    assert(decreases_to!(nodes@ => nodes@[i as int]));
                    assert(decreases_to!(nodes@[i as int] => children));
                }
                let inner = finish(children);
                proof {
                    lemma_builder_shapes(children@);
                }
                PlannedNode::Group { name: name.clone(), source_layer_id: *source_layer_id, children: inner }
            },
            NodeBuilder::Track { track_id } => PlannedNode::Track { track_id: *track_id },
        };
        finished.push(node);
        i = i + 1;
    }
    proof {
        lemma_planned_shapes(finished@);
        assert(planned_shapes(finished@) =~= unkeyed_all(builder_shapes(nodes@)));
    }
    finished
}

/// Builds the output tree: the tracks of `track_order` are placed in turn under their group
/// paths, groups with the same key at one level being merged into the first of them.
pub fn build_nodes(group_paths: &Vec<Vec<GroupSegment>>, track_order: &Vec<usize>) -> (nodes: Vec<PlannedNode>)
    requires
        forall|i: int| 0 <= i < track_order@.len() ==> #[trigger] track_order@[i] < group_paths@.len(),
    ensures
        planned_shapes(nodes@) == unkeyed_all(built(group_paths@, track_order@)),
{
    let mut roots: Vec<NodeBuilder> = Vec::new();
    let mut i: usize = 0;
    proof {
        assert(builder_shapes(roots@) =~= Seq::<PlanShape>::empty());
        assert(track_order@.take(0) =~= Seq::<usize>::empty());
    }
    while i < track_order.len()
        invariant
            i <= track_order@.len(),
            forall|q: int| 0 <= q < track_order@.len() ==> #[trigger] track_order@[q] < group_paths@.len(),
            builder_shapes(roots@) == built(group_paths@, track_order@.take(i as int)),
        decreases track_order@.len() - i,
    {
        let track_id = track_order[i];
        let path = &group_paths[track_id];
        insert_track(&mut roots, path, 0, track_id);
        proof {
            let next = track_order@.take(i as int + 1);
            assert(next.drop_last() =~= track_order@.take(i as int));
            assert(path@.subrange(0, path@.len() as int) =~= path@);
        }
        i = i + 1;
    }
    assert(track_order@.take(track_order@.len() as int) =~= track_order@);
    finish(&roots)
}

/// The track references of a node, in tree order.
pub open spec fn node_tracks(shape: PlanShape) -> Seq<usize>
    decreases shape,
{
    match shape {
        PlanShape::Group { children, .. } => forest_tracks(children),
        PlanShape::Track { track_id } => seq![track_id],
    }
}

/// The track references of a forest, in tree order.
pub open spec fn forest_tracks(shapes: Seq<PlanShape>) -> Seq<usize>
    decreases shapes,
{
    if shapes.len() == 0 {
        Seq::empty()
    } else {
        node_tracks(shapes[0]) + forest_tracks(shapes.subrange(1, shapes.len() as int))
    }
}

pub(crate) proof fn lemma_forest_tracks_concat(a: Seq<PlanShape>, b: Seq<PlanShape>)
    ensures
        forest_tracks(a + b) == forest_tracks(a) + forest_tracks(b),
    decreases a.len(),
{
    if a.len() == 0 {
        assert(a + b =~= b);
        assert(forest_tracks(a) + forest_tracks(b) =~= forest_tracks(b));
    } else {
        let rest = a.subrange(1, a.len() as int);
        lemma_forest_tracks_concat(rest, b);
        assert((a + b)[0] == a[0]);
        assert((a + b).subrange(1, (a + b).len() as int) =~= rest + b);
        assert(forest_tracks(a + b) =~= node_tracks(a[0]) + (forest_tracks(rest) + forest_tracks(b)));
        assert(forest_tracks(a) + forest_tracks(b) =~= node_tracks(a[0]) + forest_tracks(rest) + forest_tracks(b));
    }
}

proof fn lemma_node_tracks_unkeyed(shape: PlanShape)
    ensures
        node_tracks(unkeyed(shape)) == node_tracks(shape),
    decreases shape,
{
    match shape {
        PlanShape::Group { children, .. } => {
            lemma_forest_tracks_unkeyed(children);
        },
        PlanShape::Track { .. } => {},
    }
}

proof fn lemma_forest_tracks_unkeyed(shapes: Seq<PlanShape>)
    ensures
        forest_tracks(unkeyed_all(shapes)) == forest_tracks(shapes),
    decreases shapes,
{
    if shapes.len() > 0 {
        let rest = shapes.subrange(1, shapes.len() as int);
        lemma_node_tracks_unkeyed(shapes[0]);
        lemma_forest_tracks_unkeyed(rest);
        let u = unkeyed_all(shapes);
        assert(u =~= seq![unkeyed(shapes[0])] + unkeyed_all(rest));
        assert(u[0] == unkeyed(shapes[0]));
        assert(u.subrange(1, u.len() as int) =~= unkeyed_all(rest));
    }
}

pub(crate) proof fn lemma_forest_tracks_single(shape: PlanShape)
    ensures
        forest_tracks(seq![shape]) == node_tracks(shape),
{
    let single = seq![shape];
    assert(single.subrange(1, 1) =~= Seq::<PlanShape>::empty());
    assert(forest_tracks(Seq::<PlanShape>::empty()) =~= Seq::<usize>::empty());
    assert(single[0] == shape);
    assert(forest_tracks(single) =~= node_tracks(shape) + Seq::<usize>::empty());
    assert(node_tracks(shape) + Seq::<usize>::empty() =~= node_tracks(shape));
}

/// Splits a forest around position `i`.
proof fn lemma_forest_tracks_split(shapes: Seq<PlanShape>, i: int)
    requires
        0 <= i < shapes.len(),
    ensures
        forest_tracks(shapes) == forest_tracks(shapes.take(i)) + node_tracks(shapes[i]) + forest_tracks(shapes.skip(i + 1)),
{
    assert(shapes =~= shapes.take(i) + (seq![shapes[i]] + shapes.skip(i + 1)));
    lemma_forest_tracks_concat(shapes.take(i), seq![shapes[i]] + shapes.skip(i + 1));
    lemma_forest_tracks_concat(seq![shapes[i]], shapes.skip(i + 1));
    lemma_forest_tracks_single(shapes[i]);
    assert(forest_tracks(shapes.take(i)) + (node_tracks(shapes[i]) + forest_tracks(shapes.skip(i + 1)))
        =~= forest_tracks(shapes.take(i)) + node_tracks(shapes[i]) + forest_tracks(shapes.skip(i + 1)));
}

proof fn lemma_inserted_tracks(shapes: Seq<PlanShape>, path: Seq<GroupSegment>, track_id: usize)
    ensures
        forest_tracks(inserted(shapes, path, track_id)).to_multiset() == forest_tracks(shapes).to_multiset().insert(track_id),
    decreases path.len(),
{
    broadcast use vstd::seq_lib::group_to_multiset_ensures;
    broadcast use vstd::seq_lib::lemma_multiset_commutative;
    broadcast use vstd::multiset::group_multiset_axioms;

    if path.len() == 0 {
        let single = seq![PlanShape::Track { track_id }];
        lemma_forest_tracks_concat(shapes, single);
        assert(shapes.push(PlanShape::Track { track_id }) =~= shapes + single);
        lemma_forest_tracks_single(PlanShape::Track { track_id });
        assert(forest_tracks(shapes) + seq![track_id] =~= forest_tracks(shapes).push(track_id));
    } else {
        let segment = path[0];
        lemma_find_group(shapes, segment.key@, 0);
        match find_group(shapes, segment.key@, 0) {
            Some(i) => {
                if let PlanShape::Group { key, name, source_layer_id, children } = shapes[i] {
                    let grown = inserted(children, path.drop_first(), track_id);
                    lemma_inserted_tracks(children, path.drop_first(), track_id);
                    let node = PlanShape::Group { key, name, source_layer_id, children: grown };
                    let after = shapes.update(i, node);
                    lemma_forest_tracks_split(shapes, i);
                    lemma_forest_tracks_split(after, i);
                    assert(after.take(i) =~= shapes.take(i));
                    assert(after.skip(i + 1) =~= shapes.skip(i + 1));
                    assert(node_tracks(node) == forest_tracks(grown));
                    assert(node_tracks(shapes[i]) == forest_tracks(children));
                    assert(inserted(shapes, path, track_id) == after);
                    let a = forest_tracks(shapes.take(i));
                    let c = forest_tracks(shapes.skip(i + 1));
                    assert((a + forest_tracks(grown) + c).to_multiset() =~= a.to_multiset().add(forest_tracks(grown).to_multiset()).add(c.to_multiset()));
                    assert((a + forest_tracks(children) + c).to_multiset() =~= a.to_multiset().add(forest_tracks(children).to_multiset()).add(c.to_multiset()));
                }
            },
            None => {
                let grown = inserted(Seq::empty(), path.drop_first(), track_id);
                lemma_inserted_tracks(Seq::empty(), path.drop_first(), track_id);
                assert(forest_tracks(Seq::<PlanShape>::empty()) =~= Seq::<usize>::empty());
                let node = PlanShape::Group { key: segment.key@, name: segment.name@, source_layer_id: Some(segment.id), children: grown };
                let single = seq![node];
                lemma_forest_tracks_concat(shapes, single);
                assert(shapes.push(node) =~= shapes + single);
                lemma_forest_tracks_single(node);
                assert(Seq::<usize>::empty().to_multiset().insert(track_id) =~= vstd::multiset::Multiset::singleton(track_id));
            },
        }
    }
}

/// Every track of the order is placed exactly once in the built tree, at whatever depth its
/// group path leads to, and no other track is placed.
pub proof fn lemma_built_tracks(paths: Seq<Vec<GroupSegment>>, order: Seq<usize>)
    ensures
        forest_tracks(unkeyed_all(built(paths, order))).to_multiset() == order.to_multiset(),
    decreases order.len(),
{
    broadcast use vstd::seq_lib::group_to_multiset_ensures;

    lemma_forest_tracks_unkeyed(built(paths, order));
    if order.len() > 0 {
        lemma_built_tracks(paths, order.drop_last());
        lemma_forest_tracks_unkeyed(built(paths, order.drop_last()));
        lemma_inserted_tracks(built(paths, order.drop_last()), paths[order.last() as int]@, order.last());
        assert(order.drop_last().push(order.last()) =~= order);
    } else {
        assert(forest_tracks(Seq::<PlanShape>::empty()) =~= Seq::<usize>::empty());
    }
}

/// The number of nodes of a tree, itself included.
pub open spec fn node_size(shape: PlanShape) -> nat
    decreases shape,
{
    match shape {
        PlanShape::Group { children, .. } => 1 + forest_size(children),
        PlanShape::Track { .. } => 1,
    }
}

/// The number of nodes of a forest.
pub open spec fn forest_size(shapes: Seq<PlanShape>) -> nat
    decreases shapes,
{
    if shapes.len() == 0 {
        0
    } else {
        node_size(shapes[0]) + forest_size(shapes.subrange(1, shapes.len() as int))
    }
}

/// The flat index of each track of a node, numbering nodes in tree order from `next`; a
/// group takes one number before its children.
pub open spec fn node_indices(shape: PlanShape, next: int) -> Seq<(usize, i32)>
    decreases shape,
{
    match shape {
        PlanShape::Group { children, .. } => forest_indices(children, next + 1),
        PlanShape::Track { track_id } => seq![(track_id, next as i32)],
    }
}

/// The flat index of each track of a forest, numbering nodes in tree order from `next`.
pub open spec fn forest_indices(shapes: Seq<PlanShape>, next: int) -> Seq<(usize, i32)>
    decreases shapes,
{
    if shapes.len() == 0 {
        Seq::empty()
    } else {
        node_indices(shapes[0], next) + forest_indices(shapes.subrange(1, shapes.len() as int), next + node_size(shapes[0]))
    }
}

/// Numbers the nodes of `nodes` in tree order from `*next`, a group before its children, and
/// appends each track with its number to `output`.
pub fn collect_track_indices(nodes: &Vec<PlannedNode>, next: &mut i32, output: &mut Vec<(usize, i32)>)
    requires
        0 <= *old(next),
        *old(next) + forest_size(planned_shapes(nodes@)) <= i32::MAX,
    ensures
        *final(next) == *old(next) + forest_size(planned_shapes(nodes@)),
        final(output)@ == old(output)@ + forest_indices(planned_shapes(nodes@), *old(next) as int),
    decreases nodes@,
{
    proof {
        lemma_planned_shapes(nodes@);
    }
    let ghost shapes = planned_shapes(nodes@);
    let ghost start = *next as int;
    let ghost initial = output@;
    let mut i: usize = 0;
    assert(shapes.subrange(0, shapes.len() as int) =~= shapes);
    while i < nodes.len()
        invariant
            i <= nodes@.len(),
            start <= *next,
            shapes == planned_shapes(nodes@),
            shapes.len() == nodes@.len(),
            forall|q: int| 0 <= q < nodes@.len() ==> #[trigger] shapes[q] == planned_shape(nodes@[q]),
            0 <= start,
            start + forest_size(shapes) <= i32::MAX,
            *next as int + forest_size(shapes.subrange(i as int, shapes.len() as int)) == start + forest_size(shapes),
            initial + forest_indices(shapes, start) == output@ + forest_indices(shapes.subrange(i as int, shapes.len() as int), *next as int),
        decreases nodes@.len() - i,
    {
        let ghost tail = shapes.subrange(i as int, shapes.len() as int);
        let ghost here = *next as int;
        proof {
            assert(tail[0] == shapes[i as int]);
            assert(tail.subrange(1, tail.len() as int) =~= shapes.subrange(i as int + 1, shapes.len() as int));
        }
        match &nodes[i] {
            PlannedNode::Group { children, .. } => {
                proof {
                    assert(decreases_to!(nodes@ => nodes@[i as int]));
                }
                *next = *next + 1;
                collect_track_indices(children, next, output);
            },
            PlannedNode::Track { track_id } => {
                output.push((*track_id, *next));
                *next = *next + 1;
            },
        }
        proof {
            assert(node_indices(shapes[i as int], here) + forest_indices(shapes.subrange(i as int + 1, shapes.len() as int), here + node_size(shapes[i as int]))
                == forest_indices(tail, here));
        }
        i = i + 1;
    }
    proof {
        assert(shapes.subrange(nodes@.len() as int, shapes.len() as int) =~= Seq::<PlanShape>::empty());
        assert(output@ + Seq::<(usize, i32)>::empty() =~= output@);
    }
}

/// Whether the numbers of a list of track entries rise strictly and lie in `[low, high)`.
pub open spec fn numbered_within(entries: Seq<(usize, i32)>, low: int, high: int) -> bool {
    &&& forall|k: int| 0 <= k < entries.len() ==> low <= (#[trigger] entries[k]).1 < high
    &&& forall|a: int, b: int| 0 <= a < b < entries.len() ==> (#[trigger] entries[a]).1 < (#[trigger] entries[b]).1
}

proof fn lemma_numbered_concat(a: Seq<(usize, i32)>, b: Seq<(usize, i32)>, low: int, mid: int, high: int)
    requires
        low <= mid <= high,
        numbered_within(a, low, mid),
        numbered_within(b, mid, high),
    ensures
        numbered_within(a + b, low, high),
{
    let c = a + b;
    assert forall|k: int| 0 <= k < c.len() implies low <= (#[trigger] c[k]).1 < high by {
        if k < a.len() {
            assert(c[k] == a[k]);
        } else {
            assert(c[k] == b[k - a.len()]);
        }
    }
    assert forall|x: int, y: int| 0 <= x < y < c.len() implies (#[trigger] c[x]).1 < (#[trigger] c[y]).1 by {
        if y < a.len() {
            assert(c[x] == a[x] && c[y] == a[y]);
        } else if x < a.len() {
            assert(c[x] == a[x] && c[y] == b[y - a.len()]);
        } else {
            assert(c[x] == b[x - a.len()] && c[y] == b[y - a.len()]);
        }
    }
}

proof fn lemma_node_numbered(shape: PlanShape, next: int)
    requires
        0 <= next,
        next + node_size(shape) <= i32::MAX,
    ensures
        numbered_within(node_indices(shape, next), next, next + node_size(shape)),
    decreases shape,
{
    match shape {
        PlanShape::Group { children, .. } => {
            lemma_forest_numbered(children, next + 1);
        },
        PlanShape::Track { track_id } => {},
    }
}

proof fn lemma_forest_numbered(shapes: Seq<PlanShape>, next: int)
    requires
        0 <= next,
        next + forest_size(shapes) <= i32::MAX,
    ensures
        numbered_within(forest_indices(shapes, next), next, next + forest_size(shapes)),
    decreases shapes,
{
    if shapes.len() > 0 {
        let rest = shapes.subrange(1, shapes.len() as int);
        let n0 = node_size(shapes[0]);
        lemma_node_numbered(shapes[0], next);
        lemma_forest_numbered(rest, next + n0);
        lemma_numbered_concat(node_indices(shapes[0], next), forest_indices(rest, next + n0), next, next + n0, next + forest_size(shapes));
    }
}

/// Tree-order numbering gives every track entry of a tree its own number, rising in tree
/// order from the first number and below the first number past the tree.
pub proof fn lemma_track_indices_increase(nodes: Seq<PlannedNode>, next: int)
    requires
        0 <= next,
        next + forest_size(planned_shapes(nodes)) <= i32::MAX,
    ensures
        numbered_within(forest_indices(planned_shapes(nodes), next), next, next + forest_size(planned_shapes(nodes))),
{
    lemma_forest_numbered(planned_shapes(nodes), next);
}

} // verus!
