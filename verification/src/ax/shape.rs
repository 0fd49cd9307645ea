//! The shape that each node of a window was last emitted with: its children, the
//! text runs among them, and its selection.
//!
//! A refresh changes what a node says, never the shape of the tree, so it takes the
//! shape from here and not from what was read again.

use crate::tree::copy_ids;
use crate::tree::node_views;
use crate::tree::Node;
use crate::tree::NodeId;
use crate::tree::NodeView;
use crate::tree::TextSelection;
use std::collections::HashMap;
use vstd::prelude::*;

verus! {

/// The children and the selection of a node.
pub struct Shape {
    pub children: Vec<NodeId>,
    pub selection: Option<TextSelection>,
}

/// The content of a [`Shape`].
#[verifier::ext_equal]
pub struct ShapeView {
    pub children: Seq<NodeId>,
    pub selection: Option<TextSelection>,
}

impl View for Shape {
    type V = ShapeView;

    open spec fn view(&self) -> ShapeView {
        ShapeView { children: self.children@, selection: self.selection }
    }
}

/// The shape of a node.
pub open spec fn shape_of(node: NodeView) -> ShapeView {
    ShapeView { children: node.children, selection: node.props.text_selection }
}

/// The shapes of nodes, by id.
pub open spec fn shapes_of(nodes: Seq<(NodeId, NodeView)>) -> Map<NodeId, ShapeView>
    decreases nodes.len(),
{
    if nodes.len() == 0 {
        Map::empty()
    } else {
        shapes_of(nodes.drop_last()).insert(nodes.last().0, shape_of(nodes.last().1))
    }
}

/// Shapes, by node id.
pub struct ShapeMap {
    shapes: HashMap<u64, Shape>,
}

impl View for ShapeMap {
    type V = Map<NodeId, ShapeView>;

    closed spec fn view(&self) -> Map<NodeId, ShapeView> {
        Map::new(
            |id: NodeId| self.shapes@.contains_key(id.0),
            |id: NodeId| self.shapes@[id.0]@,
        )
    }
}

impl ShapeMap {
    /// The shapes that nodes are emitted with; see [`shapes_of`].
    pub fn of(nodes: &[(NodeId, Node)]) -> (map: Self)
        ensures
            map@ == shapes_of(node_views(nodes@)),
    {
        broadcast use vstd::std_specs::hash::group_hash_axioms;

        let ghost all = node_views(nodes@);
        let mut map = ShapeMap { shapes: HashMap::new() };
        assert(map@ =~= Map::<NodeId, ShapeView>::empty());
        for i in 0..nodes.len()
            invariant
                all == node_views(nodes@),
                map@ == shapes_of(all.take(i as int)),
        {
            broadcast use vstd::std_specs::hash::group_hash_axioms;

            let ghost before = map@;
            assert(all.take(i + 1).drop_last() =~= all.take(i as int));
            let id: NodeId = nodes[i].0;
            let shape = Shape {
                children: copy_ids(nodes[i].1.children.as_slice()),
                selection: nodes[i].1.props.text_selection,
            };
            let ghost shown = shape@;
            map.shapes.insert(id.0, shape);
            assert(map@ =~= before.insert(id, shown));
            assert(all.take(i + 1).last() == (id, nodes@[i as int].1@));
        }
        assert(all.take(nodes@.len() as int) =~= all);
        map
    }

    pub fn get(&self, id: NodeId) -> (shape: Option<&Shape>)
        ensures
            match shape {
                Some(shape) => self@.contains_key(id) && shape@ == self@[id],
                None => !self@.contains_key(id),
            },
    {
        broadcast use vstd::std_specs::hash::group_hash_axioms;

        self.shapes.get(&id.0)
    }
}

/// A node is remembered with the shape it was emitted with.
pub proof fn lemma_shape(nodes: Seq<(NodeId, NodeView)>, i: int)
    requires
        0 <= i < nodes.len(),
        forall|a: int, b: int|
            0 <= a < b < nodes.len() ==> (#[trigger] nodes[a]).0 != (#[trigger] nodes[b]).0,
    ensures
        shapes_of(nodes).contains_key(nodes[i].0),
        shapes_of(nodes)[nodes[i].0] == shape_of(nodes[i].1),
    decreases nodes.len(),
{
    let init = nodes.drop_last();
    if i < init.len() {
        assert forall|a: int, b: int| 0 <= a < b < init.len() implies (#[trigger] init[a]).0 != (
        #[trigger] init[b]).0 by {
            assert(nodes[a].0 != nodes[b].0);
        }
        lemma_shape(init, i);
        assert(init[i] == nodes[i]);
        assert(nodes[i].0 != nodes[nodes.len() - 1].0);
    }
}

/// The shape of a node is its children and its selection: each node's, unless a later
/// one has its id. There are no shapes of other nodes.
pub proof fn law_shapes_are_those_of_the_nodes(nodes: Seq<(NodeId, NodeView)>, i: int, id: NodeId)
    ensures
        0 <= i < nodes.len() && (forall|j: int|
            i < j < nodes.len() ==> (#[trigger] nodes[j]).0 != nodes[i].0) ==> {
            let shapes = shapes_of(nodes);
            &&& shapes.contains_key(nodes[i].0)
            &&& shapes[nodes[i].0].children == nodes[i].1.children
            &&& shapes[nodes[i].0].selection == nodes[i].1.props.text_selection
        },
        shapes_of(nodes).contains_key(id) <==> exists|k: int|
            0 <= k < nodes.len() && (#[trigger] nodes[k]).0 == id,
    decreases nodes.len(),
{
    if nodes.len() > 0 {
        let init = nodes.drop_last();
        let n = nodes.len() - 1;
        law_shapes_are_those_of_the_nodes(init, i, id);
        assert(nodes[n] == nodes.last());
        if 0 <= i < n && (forall|j: int|
            i < j < nodes.len() ==> (#[trigger] nodes[j]).0 != nodes[i].0) {
            assert forall|j: int| i < j < init.len() implies (#[trigger] init[j]).0
                != init[i].0 by {
                assert(nodes[j].0 != nodes[i].0);
            }
            assert(nodes[n].0 != nodes[i].0);
            assert(init[i] == nodes[i]);
        }
        if shapes_of(init).contains_key(id) {
            let k = choose|k: int| 0 <= k < init.len() && (#[trigger] init[k]).0 == id;
            assert(nodes[k].0 == id);
        }
        if exists|k: int| 0 <= k < nodes.len() && (#[trigger] nodes[k]).0 == id {
            let k = choose|k: int| 0 <= k < nodes.len() && (#[trigger] nodes[k]).0 == id;
            if k < n {
                assert(init[k].0 == id);
            }
        }
    }
}

} // verus!
