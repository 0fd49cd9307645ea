//! What a consumer makes of the updates of a window.
//!
//! A consumer overwrites the nodes that an update carries, and drops every node that
//! can then no longer be reached from the root. It does not tolerate an update that
//! names a child which it neither holds nor is sent, that carries a node which
//! nothing names, or that names a child twice.

use crate::ax::delta::after_refresh;
use crate::ax::delta::after_walk;
use crate::ax::delta::changed;
use crate::ax::delta::differs;
use crate::ax::delta::each_id_once;
use crate::ax::delta::encoding;
use crate::ax::delta::encodings;
use crate::ax::delta::lemma_changed_from;
use crate::ax::delta::lemma_remembered;
use crate::ax::delta::lemma_remembered_from;
use crate::ax::delta::remembered;
use crate::ax::delta::sent;
use crate::ax::delta::EmittedView;
use crate::ax::delta::WireView;
use crate::tree::NodeId;
use accesskit::Node as ToolkitNode;
use vstd::prelude::*;

verus! {

// ---------------------------------------------------------------- what hangs together

/// Whether a path leads down from the root, from each node to one of its children.
pub open spec fn is_path(
    links: Map<NodeId, Seq<NodeId>>,
    root: NodeId,
    path: Seq<NodeId>,
) -> bool {
    &&& path.len() > 0
    &&& path[0] == root
    &&& forall|i: int| 0 <= i < path.len() ==> links.contains_key(#[trigger] path[i])
    &&& forall|i: int|
        0 <= i < path.len() - 1 ==> links[#[trigger] path[i]].contains(path[i + 1])
}

/// Whether a node can be reached from the root.
pub open spec fn reachable(links: Map<NodeId, Seq<NodeId>>, root: NodeId, id: NodeId) -> bool {
    exists|path: Seq<NodeId>| #[trigger] is_path(links, root, path) && path.last() == id
}

/// Whether nodes are a whole tree: the root is there, every child that is named is,
/// every node can be reached, and no child is named twice.
pub open spec fn is_whole(links: Map<NodeId, Seq<NodeId>>, root: NodeId) -> bool {
    &&& links.contains_key(root)
    &&& forall|id: NodeId, a: int|
        links.contains_key(id) && 0 <= a < links[id].len() ==> links.contains_key(
            #[trigger] links[id][a],
        )
    &&& forall|id: NodeId| links.contains_key(id) ==> #[trigger] reachable(links, root, id)
    &&& forall|p: NodeId, a: int, q: NodeId, b: int|
        links.contains_key(p) && links.contains_key(q) && 0 <= a < links[p].len() && 0 <= b
            < links[q].len() && #[trigger] links[p][a] == #[trigger] links[q][b] ==> p == q && a
            == b
}

/// A node that hangs under one that can be reached can be reached.
pub proof fn lemma_reach_child(
    links: Map<NodeId, Seq<NodeId>>,
    root: NodeId,
    parent: NodeId,
    child: NodeId,
)
    requires
        reachable(links, root, parent),
        links[parent].contains(child),
        links.contains_key(child),
    ensures
        reachable(links, root, child),
{
    let path = choose|path: Seq<NodeId>| #[trigger]
        is_path(links, root, path) && path.last() == parent;
    let longer = path.push(child);
    assert forall|i: int| 0 <= i < longer.len() implies links.contains_key(
        #[trigger] longer[i],
    ) by {
        if i < path.len() {
            assert(longer[i] == path[i]);
        }
    }
    assert forall|i: int| 0 <= i < longer.len() - 1 implies links[#[trigger] longer[i]].contains(
        longer[i + 1],
    ) by {
        assert(longer[i] == path[i]);
        if i + 1 < path.len() {
            assert(longer[i + 1] == path[i + 1]);
        }
    }
    assert(is_path(links, root, longer));
}

/// The root can be reached.
pub proof fn lemma_reach_root(links: Map<NodeId, Seq<NodeId>>, root: NodeId)
    requires
        links.contains_key(root),
    ensures
        reachable(links, root, root),
{
    assert(is_path(links, root, seq![root]));
}

// ---------------------------------------------------------------- a consumer

/// The children that nodes name, as a consumer reads them off the serialized form.
pub open spec fn links_in(
    nodes: Map<NodeId, Seq<u8>>,
    reads: spec_fn(Seq<u8>) -> Seq<NodeId>,
) -> Map<NodeId, Seq<NodeId>> {
    Map::new(|id: NodeId| nodes.contains_key(id), |id: NodeId| reads(nodes[id]))
}

/// Nodes, each with its serialized form, which it has.
pub open spec fn all_serialize(nodes: Seq<(NodeId, ToolkitNode)>) -> bool {
    forall|i: int| 0 <= i < nodes.len() ==> encoding((#[trigger] nodes[i]).1) is Some
}

/// The children that a node of an update names.
pub open spec fn named(
    nodes: Seq<(NodeId, ToolkitNode)>,
    reads: spec_fn(Seq<u8>) -> Seq<NodeId>,
    i: int,
) -> Seq<NodeId> {
    reads(encoding(nodes[i].1)->0)
}

/// Whether an update carries a node.
pub open spec fn carries_node(nodes: Seq<(NodeId, ToolkitNode)>, id: NodeId) -> bool {
    exists|i: int| 0 <= i < nodes.len() && (#[trigger] nodes[i]).0 == id
}

/// Whether a node of an update names a child.
pub open spec fn names_child(
    nodes: Seq<(NodeId, ToolkitNode)>,
    reads: spec_fn(Seq<u8>) -> Seq<NodeId>,
    id: NodeId,
) -> bool {
    exists|i: int| 0 <= i < nodes.len() && (#[trigger] named(nodes, reads, i)).contains(id)
}

/// Whether a consumer tolerates an update: every child that it names is held or
/// carried, every node that it carries is held, the root, or named, and no child is
/// named twice.
pub open spec fn tolerates(
    held: Map<NodeId, Seq<u8>>,
    nodes: Seq<(NodeId, ToolkitNode)>,
    reads: spec_fn(Seq<u8>) -> Seq<NodeId>,
    root: NodeId,
) -> bool {
    &&& forall|i: int, a: int|
        0 <= i < nodes.len() && 0 <= a < named(nodes, reads, i).len() ==> {
            let child = #[trigger] named(nodes, reads, i)[a];
            held.contains_key(child) || carries_node(nodes, child)
        }
    &&& forall|i: int|
        0 <= i < nodes.len() ==> {
            let id = (#[trigger] nodes[i]).0;
            held.contains_key(id) || id == root || names_child(nodes, reads, id)
        }
    &&& forall|i: int, a: int, j: int, b: int|
        0 <= i < nodes.len() && 0 <= j < nodes.len() && 0 <= a < named(nodes, reads, i).len()
            && 0 <= b < named(nodes, reads, j).len() && #[trigger] named(nodes, reads, i)[a]
            == #[trigger] named(nodes, reads, j)[b] ==> i == j && a == b
}

/// What a consumer holds once the nodes of an update have overwritten its own.
pub open spec fn overwritten(
    held: Map<NodeId, Seq<u8>>,
    nodes: Seq<(NodeId, ToolkitNode)>,
) -> Map<NodeId, Seq<u8>>
    decreases nodes.len(),
{
    if nodes.len() == 0 {
        held
    } else {
        overwritten(held, nodes.drop_last()).insert(
            nodes.last().0,
            encoding(nodes.last().1)->0,
        )
    }
}

/// What can be reached of what a consumer holds.
pub open spec fn pruned(
    held: Map<NodeId, Seq<u8>>,
    reads: spec_fn(Seq<u8>) -> Seq<NodeId>,
    root: NodeId,
) -> Map<NodeId, Seq<u8>> {
    Map::new(
        |id: NodeId| held.contains_key(id) && reachable(links_in(held, reads), root, id),
        |id: NodeId| held[id],
    )
}

/// What a consumer holds after an update.
pub open spec fn received(
    held: Map<NodeId, Seq<u8>>,
    nodes: Seq<(NodeId, ToolkitNode)>,
    reads: spec_fn(Seq<u8>) -> Seq<NodeId>,
    root: NodeId,
) -> Map<NodeId, Seq<u8>> {
    pruned(overwritten(held, nodes), reads, root)
}

/// Whether a consumer holds exactly what is known to be sent: a whole tree, or
/// nothing as long as nothing was sent.
pub open spec fn in_step(
    state: EmittedView,
    held: Map<NodeId, Seq<u8>>,
    reads: spec_fn(Seq<u8>) -> Seq<NodeId>,
    root: NodeId,
) -> bool {
    &&& held == state.nodes
    &&& if state.announced {
        is_whole(links_in(held, reads), root)
    } else {
        held == Map::<NodeId, Seq<u8>>::empty()
    }
}

/// A consumer that nothing has been sent to is in step.
pub proof fn law_a_new_consumer_is_in_step(
    reads: spec_fn(Seq<u8>) -> Seq<NodeId>,
    root: NodeId,
)
    ensures
        in_step(crate::ax::delta::unsent(), Map::empty(), reads, root),
{
}

proof fn lemma_overwritten(
    held: Map<NodeId, Seq<u8>>,
    nodes: Seq<(NodeId, ToolkitNode)>,
    id: NodeId,
)
    requires
        each_id_once(nodes),
    ensures
        !carries_node(nodes, id) ==> {
            &&& overwritten(held, nodes).contains_key(id) == held.contains_key(id)
            &&& held.contains_key(id) ==> overwritten(held, nodes)[id] == held[id]
        },
        forall|i: int|
            0 <= i < nodes.len() && (#[trigger] nodes[i]).0 == id ==> overwritten(
                held,
                nodes,
            ).contains_key(id) && overwritten(held, nodes)[id] == encoding(nodes[i].1)->0,
    decreases nodes.len(),
{
    if nodes.len() > 0 {
        let init = nodes.drop_last();
        assert forall|a: int, b: int| 0 <= a < b < init.len() implies (#[trigger] init[a]).0 != (
        #[trigger] init[b]).0 by {
            assert(nodes[a].0 != nodes[b].0);
        }
        lemma_overwritten(held, init, id);
        let last = nodes.len() - 1;
        if !carries_node(nodes, id) {
            assert(nodes[last].0 != id);
            if carries_node(init, id) {
                let i = choose|i: int| 0 <= i < init.len() && (#[trigger] init[i]).0 == id;
                assert(nodes[i].0 == id);
            }
        }
        assert forall|i: int| 0 <= i < nodes.len() && (#[trigger] nodes[i]).0 == id implies overwritten(
            held,
            nodes,
        ).contains_key(id) && overwritten(held, nodes)[id] == encoding(nodes[i].1)->0 by {
            if i < last {
                assert(init[i] == nodes[i]);
                assert(nodes[i].0 != nodes[last].0);
            }
        }
    }
}

/// A path among some nodes is a path among more.
proof fn lemma_path_in_more(
    some: Map<NodeId, Seq<u8>>,
    more: Map<NodeId, Seq<u8>>,
    reads: spec_fn(Seq<u8>) -> Seq<NodeId>,
    root: NodeId,
    id: NodeId,
)
    requires
        forall|k: NodeId| #[trigger]
            some.contains_key(k) ==> more.contains_key(k) && more[k] == some[k],
        reachable(links_in(some, reads), root, id),
    ensures
        reachable(links_in(more, reads), root, id),
{
    let (few, many) = (links_in(some, reads), links_in(more, reads));
    let path = choose|path: Seq<NodeId>| #[trigger] is_path(few, root, path) && path.last() == id;
    assert forall|i: int| 0 <= i < path.len() implies many.contains_key(#[trigger] path[i]) && many[
        path[i]] == few[path[i]] by {
        assert(few.contains_key(path[i]));
        assert(some.contains_key(path[i]));
    }
    assert(is_path(many, root, path));
}

/// A path from the root of a whole tree stays in it, though there is more around it.
proof fn lemma_path_stays(
    some: Map<NodeId, Seq<u8>>,
    more: Map<NodeId, Seq<u8>>,
    reads: spec_fn(Seq<u8>) -> Seq<NodeId>,
    root: NodeId,
    path: Seq<NodeId>,
    i: int,
)
    requires
        forall|k: NodeId| #[trigger]
            some.contains_key(k) ==> more.contains_key(k) && more[k] == some[k],
        is_whole(links_in(some, reads), root),
        is_path(links_in(more, reads), root, path),
        0 <= i < path.len(),
    ensures
        some.contains_key(path[i]),
    decreases i,
{
    let (few, many) = (links_in(some, reads), links_in(more, reads));
    assert(few.contains_key(root));
    if i > 0 {
        lemma_path_stays(some, more, reads, root, path, i - 1);
        let parent = path[i - 1];
        assert(few.contains_key(parent));
        assert(many[parent].contains(path[i - 1 + 1]));
        assert(few[parent] == many[parent]);
        let a = few[parent].index_of(path[i]);
        assert(few.contains_key(few[parent][a]));
    }
}

/// Of a whole tree and what is around it, the tree is what can be reached.
proof fn lemma_prunes_to(
    some: Map<NodeId, Seq<u8>>,
    more: Map<NodeId, Seq<u8>>,
    reads: spec_fn(Seq<u8>) -> Seq<NodeId>,
    root: NodeId,
)
    requires
        forall|k: NodeId| #[trigger]
            some.contains_key(k) ==> more.contains_key(k) && more[k] == some[k],
        is_whole(links_in(some, reads), root),
    ensures
        pruned(more, reads, root) == some,
{
    let (few, many) = (links_in(some, reads), links_in(more, reads));
    let kept = pruned(more, reads, root);
    assert forall|id: NodeId| kept.contains_key(id) == some.contains_key(id) by {
        if some.contains_key(id) {
            assert(few.contains_key(id));
            assert(reachable(few, root, id));
            lemma_path_in_more(some, more, reads, root, id);
        }
        if kept.contains_key(id) {
            let path = choose|path: Seq<NodeId>| #[trigger]
                is_path(many, root, path) && path.last() == id;
            lemma_path_stays(some, more, reads, root, path, path.len() - 1);
        }
    }
    assert(kept =~= some);
}

/// Every node of a walk is remembered, and nothing else.
proof fn lemma_walk_remembered(full: WireView)
    requires
        each_id_once(full.nodes),
        all_serialize(full.nodes),
    ensures
        ({
            let whole = remembered(full.nodes, encodings(full.nodes));
            &&& forall|i: int|
                0 <= i < full.nodes.len() ==> whole.contains_key((#[trigger] full.nodes[i]).0)
                    && Some(whole[full.nodes[i].0]) == encoding(full.nodes[i].1)
            &&& forall|id: NodeId| #[trigger]
                whole.contains_key(id) ==> carries_node(full.nodes, id)
        }),
{
    let codes = encodings(full.nodes);
    let whole = remembered(full.nodes, codes);
    assert forall|i: int| 0 <= i < full.nodes.len() implies whole.contains_key(
        (#[trigger] full.nodes[i]).0,
    ) && Some(whole[full.nodes[i].0]) == encoding(full.nodes[i].1) by {
        lemma_remembered(full.nodes, codes, i);
    }
    assert forall|id: NodeId| #[trigger] whole.contains_key(id) implies carries_node(
        full.nodes,
        id,
    ) by {
        lemma_remembered_from(full.nodes, codes, id);
    }
}

/// Once what is sent of a walk has overwritten what a consumer holds, every node of
/// the walk is held as it was walked.
proof fn lemma_walk_held(state: EmittedView, full: WireView, k: NodeId)
    requires
        each_id_once(full.nodes),
        all_serialize(full.nodes),
        remembered(full.nodes, encodings(full.nodes)).contains_key(k),
    ensures
        ({
            let some = changed(state.nodes, full.nodes, encodings(full.nodes));
            let whole = remembered(full.nodes, encodings(full.nodes));
            &&& overwritten(state.nodes, some).contains_key(k)
            &&& overwritten(state.nodes, some)[k] == whole[k]
            &&& overwritten(state.nodes, full.nodes).contains_key(k)
            &&& overwritten(state.nodes, full.nodes)[k] == whole[k]
            &&& !carries_node(some, k) ==> state.nodes.contains_key(k) && state.nodes[k]
                == whole[k]
        }),
{
    let codes = encodings(full.nodes);
    let some = changed(state.nodes, full.nodes, codes);
    lemma_walk_remembered(full);
    lemma_changed_from(state.nodes, full.nodes, codes);
    let i = choose|i: int| 0 <= i < full.nodes.len() && (#[trigger] full.nodes[i]).0 == k;
    lemma_overwritten(state.nodes, full.nodes, k);
    lemma_overwritten(state.nodes, some, k);
    if differs(state.nodes, full.nodes[i].0, codes[i]) {
        let j = some.index_of(full.nodes[i]);
        assert(some.contains(full.nodes[i]));
        assert(some[j].0 == k);
        assert(carries_node(some, k));
    } else if carries_node(some, k) {
        let j = choose|j: int| 0 <= j < some.len() && (#[trigger] some[j]).0 == k;
        assert(some[j].0 != full.nodes[i].0);
    }
}

/// What is sent of a walk is tolerated.
proof fn lemma_walk_tolerated(
    state: EmittedView,
    full: WireView,
    nodes: Seq<(NodeId, ToolkitNode)>,
    reads: spec_fn(Seq<u8>) -> Seq<NodeId>,
    root: NodeId,
)
    requires
        each_id_once(full.nodes),
        all_serialize(full.nodes),
        is_whole(links_in(remembered(full.nodes, encodings(full.nodes)), reads), root),
        in_step(state, state.nodes, reads, root),
        nodes == (if state.announced {
            changed(state.nodes, full.nodes, encodings(full.nodes))
        } else {
            full.nodes
        }),
    ensures
        tolerates(state.nodes, nodes, reads, root),
{
    let codes = encodings(full.nodes);
    let whole = remembered(full.nodes, codes);
    let (links, old_links) = (links_in(whole, reads), links_in(state.nodes, reads));
    let held = state.nodes;
    lemma_walk_remembered(full);
    lemma_changed_from(held, full.nodes, codes);
    assert forall|i: int| 0 <= i < nodes.len() implies full.nodes.contains(
        #[trigger] nodes[i],
    ) && whole.contains_key(nodes[i].0) && links[nodes[i].0] == named(nodes, reads, i) by {
        assert(full.nodes.contains(nodes[i]));
        let j = full.nodes.index_of(nodes[i]);
        assert(full.nodes[j] == nodes[i]);
    }
    assert(each_id_once(nodes));
    assert forall|k: NodeId| whole.contains_key(k) && !#[trigger] carries_node(
        nodes,
        k,
    ) implies held.contains_key(k) && held[k] == whole[k] by {
        lemma_walk_held(state, full, k);
    }
    assert forall|i: int, a: int|
        0 <= i < nodes.len() && 0 <= a < named(nodes, reads, i).len() implies {
        let child = #[trigger] named(nodes, reads, i)[a];
        held.contains_key(child) || carries_node(nodes, child)
    } by {
        let id = nodes[i].0;
        assert(links.contains_key(id));
        assert(links.contains_key(links[id][a]));
        assert(whole.contains_key(named(nodes, reads, i)[a]));
    }
    assert forall|i: int| 0 <= i < nodes.len() implies {
        let id = (#[trigger] nodes[i]).0;
        held.contains_key(id) || id == root || names_child(nodes, reads, id)
    } by {
        let id = nodes[i].0;
        assert(links.contains_key(id));
        assert(reachable(links, root, id));
        if id != root {
            let path = choose|path: Seq<NodeId>| #[trigger]
                is_path(links, root, path) && path.last() == id;
            let n = path.len() - 2;
            let parent = path[n];
            assert(links.contains_key(parent));
            assert(links[parent].contains(path[n + 1]));
            if carries_node(nodes, parent) {
                let j = choose|j: int| 0 <= j < nodes.len() && (#[trigger] nodes[j]).0 == parent;
                assert(named(nodes, reads, j).contains(id));
            } else {
                assert(held.contains_key(parent) && held[parent] == whole[parent]);
                assert(old_links[parent] == links[parent]);
                let a = old_links[parent].index_of(id);
                assert(old_links.contains_key(old_links[parent][a]));
            }
        }
    }
    assert forall|i: int, a: int, j: int, b: int|
        0 <= i < nodes.len() && 0 <= j < nodes.len() && 0 <= a < named(nodes, reads, i).len() && 0
            <= b < named(nodes, reads, j).len() && #[trigger] named(nodes, reads, i)[a]
            == #[trigger] named(nodes, reads, j)[b] implies i == j && a == b by {
        let (p, q) = (nodes[i].0, nodes[j].0);
        assert(links.contains_key(p) && links.contains_key(q));
        assert(links[p][a] == links[q][b]);
        if i < j {
            assert(nodes[i].0 != nodes[j].0);
        }
        if j < i {
            assert(nodes[j].0 != nodes[i].0);
        }
    }
}

/// A walk keeps a consumer in step: it tolerates what is sent, and then holds exactly
/// what is known to be sent, what it dropped included. Nothing is held back that it
/// does not have, and nothing is taken for held that it dropped.
pub proof fn law_a_walk_keeps_the_consumer_in_step(
    state: EmittedView,
    held: Map<NodeId, Seq<u8>>,
    full: WireView,
    reads: spec_fn(Seq<u8>) -> Seq<NodeId>,
    root: NodeId,
)
    requires
        each_id_once(full.nodes),
        all_serialize(full.nodes),
        is_whole(links_in(remembered(full.nodes, encodings(full.nodes)), reads), root),
        in_step(state, held, reads, root),
    ensures
        ({
            let after = after_walk(state, full, encodings(full.nodes));
            match sent(state, full, encodings(full.nodes)) {
                Some(update) => {
                    &&& tolerates(held, update.nodes, reads, root)
                    &&& in_step(after, received(held, update.nodes, reads, root), reads, root)
                },
                None => in_step(after, held, reads, root),
            }
        }),
{
    let codes = encodings(full.nodes);
    let whole = remembered(full.nodes, codes);
    let some = changed(state.nodes, full.nodes, codes);
    let nodes = if state.announced {
        some
    } else {
        full.nodes
    };
    let more = overwritten(held, nodes);
    assert forall|k: NodeId| #[trigger] whole.contains_key(k) implies more.contains_key(k)
        && more[k] == whole[k] by {
        lemma_walk_held(state, full, k);
    }
    lemma_prunes_to(whole, more, reads, root);
    lemma_walk_tolerated(state, full, nodes, reads, root);
    if sent(state, full, codes) is None {
        assert(nodes.len() == 0);
        lemma_prunes_to(held, held, reads, root);
    }
}

/// A refresh that keeps the children of a node keeps a consumer in step: it tolerates
/// the node, drops nothing, and holds exactly what is known to be sent. So it does
/// where the node is not sent because it is held as it is.
pub proof fn law_a_refresh_keeps_the_consumer_in_step(
    state: EmittedView,
    held: Map<NodeId, Seq<u8>>,
    id: NodeId,
    node: ToolkitNode,
    reads: spec_fn(Seq<u8>) -> Seq<NodeId>,
    root: NodeId,
)
    requires
        in_step(state, held, reads, root),
        held.contains_key(id),
        encoding(node) matches Some(bytes) && reads(bytes) == reads(held[id]),
    ensures
        ({
            let after = after_refresh(state, id, encoding(node));
            let update = seq![(id, node)];
            &&& tolerates(held, update, reads, root)
            &&& received(held, update, reads, root) == held.insert(id, encoding(node)->0)
            &&& in_step(after, received(held, update, reads, root), reads, root)
            &&& !differs(state.nodes, id, encoding(node)) ==> in_step(after, held, reads, root)
        }),
{
    let update = seq![(id, node)];
    let bytes = encoding(node)->0;
    let links = links_in(held, reads);
    let more = overwritten(held, update);
    assert(update.drop_last() =~= Seq::<(NodeId, ToolkitNode)>::empty());
    assert(overwritten(held, update.drop_last()) == held);
    assert(more == held.insert(id, bytes));
    assert(links_in(more, reads) =~= links);
    lemma_prunes_to(more, more, reads, root);
    assert(named(update, reads, 0) == links[id]);
    assert forall|i: int, a: int|
        0 <= i < update.len() && 0 <= a < named(update, reads, i).len() implies {
        let child = #[trigger] named(update, reads, i)[a];
        held.contains_key(child) || carries_node(update, child)
    } by {
        assert(i == 0);
        assert(links.contains_key(links[id][a]));
    }
    assert forall|i: int, a: int, j: int, b: int|
        0 <= i < update.len() && 0 <= j < update.len() && 0 <= a < named(update, reads, i).len()
            && 0 <= b < named(update, reads, j).len() && #[trigger] named(update, reads, i)[a]
            == #[trigger] named(update, reads, j)[b] implies i == j && a == b by {
        assert(links[id][a] == links[id][b]);
    }
    if !differs(state.nodes, id, encoding(node)) {
        assert(held.insert(id, bytes) =~= held);
    }
}

} // verus!
