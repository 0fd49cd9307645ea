//! What holds of a window that is walked, and refreshed node by node in between.

use crate::ax::consumer::all_serialize;
use crate::ax::consumer::in_step;
use crate::ax::consumer::is_whole;
use crate::ax::consumer::law_a_refresh_keeps_the_consumer_in_step;
use crate::ax::consumer::law_a_walk_keeps_the_consumer_in_step;
use crate::ax::consumer::lemma_reach_child;
use crate::ax::consumer::lemma_reach_root;
use crate::ax::consumer::links_in;
use crate::ax::consumer::reachable;
use crate::ax::consumer::received;
use crate::ax::consumer::tolerates;
use crate::ax::delta::after_refresh;
use crate::ax::delta::after_walk;
use crate::ax::delta::differs;
use crate::ax::delta::each_id_once;
use crate::ax::delta::encoding;
use crate::ax::delta::encodings;
use crate::ax::delta::lemma_remembered;
use crate::ax::delta::lemma_remembered_from;
use crate::ax::delta::remembered;
use crate::ax::delta::sent;
use crate::ax::delta::EmittedView;
use crate::ax::delta::WireView;
use crate::ax::element::id_of;
use crate::ax::element::with_owners;
use crate::ax::element::ElementKey;
use crate::ax::element::Owner;
use crate::ax::laws::all_children;
use crate::ax::laws::all_own;
use crate::ax::laws::emitted;
use crate::ax::laws::grows;
use crate::ax::laws::ids_at;
use crate::ax::laws::law_every_child_is_emitted;
use crate::ax::laws::law_no_child_is_listed_twice;
use crate::ax::laws::law_no_id_is_emitted_twice;
use crate::ax::laws::law_root_and_focus_are_emitted;
use crate::ax::laws::lemma_built_owners;
use crate::ax::laws::lemma_childless;
use crate::ax::laws::lemma_children_concat;
use crate::ax::laws::lemma_emission_grows;
use crate::ax::laws::lemma_emitted_for;
use crate::ax::laws::lemma_grows_id;
use crate::ax::laws::lemma_grows_transitive;
use crate::ax::laws::lemma_lists_walked;
use crate::ax::laws::lemma_window_owners;
use crate::ax::laws::lemma_with_owners_grows;
use crate::ax::laws::runs_under;
use crate::ax::node::container_of;
use crate::ax::node::AxNode;
use crate::ax::shape::lemma_shape;
use crate::ax::shape::shapes_of;
use crate::ax::shape::ShapeView;
use crate::ax::source::held_ids;
use crate::ax::source::holding;
use crate::ax::source::refreshed_view;
use crate::ax::source::WindowView;
use crate::ax::walk::built;
use crate::ax::walk::discovered;
use crate::ax::walk::distinct_keys;
use crate::ax::walk::element_ids;
use crate::ax::walk::element_owners;
use crate::ax::walk::emit_all;
use crate::ax::walk::have_ids;
use crate::ax::walk::keys_of;
use crate::ax::walk::lemma_claimed;
use crate::ax::walk::lemma_shown_len;
use crate::ax::walk::lemma_shown_prefix;
use crate::ax::walk::lemma_walked_have_ids;
use crate::ax::walk::listed;
use crate::ax::walk::shown_lists;
use crate::ax::walk::shown_map;
use crate::ax::walk::shown_text;
use crate::ax::walk::taken;
use crate::ax::walk::window_emission;
use crate::ax::walk::window_update;
use crate::ax::walk::with_children;
use crate::ax::walk::Emission;
use crate::tree::node_ids;
use crate::tree::NodeId;
use crate::tree::NodeView;
use accesskit::Node as ToolkitNode;
use vstd::prelude::*;

verus! {

// ---------------------------------------------------------------- entries

/// Whether a place in what is emitted is that of a walked element: its id, and what
/// was read of it, with these children.
pub open spec fn is_entry(
    out: Seq<(NodeId, NodeView)>,
    p: int,
    node: AxNode,
    children: Seq<NodeId>,
    owners: Seq<Owner>,
) -> bool {
    &&& 0 <= p < out.len()
    &&& out[p].0 == id_of(owners, Owner::Element(node.key))
    &&& out[p].1 == with_children(
        container_of(node),
        children,
        out[p].1.props.text_selection,
    )
}

/// The ids of the children a walked element is shown with: the elements it keeps, and
/// its text runs behind them.
pub open spec fn shown_ids(
    node: AxNode,
    list: Seq<ElementKey>,
    owners: Seq<Owner>,
) -> Seq<NodeId> {
    ids_at(
        owners,
        element_owners(list) + runs_under(node, id_of(owners, Owner::Element(node.key))),
    )
}

proof fn lemma_built_entry(
    node: AxNode,
    list: Seq<ElementKey>,
    before: Seq<Owner>,
    later: Seq<Owner>,
)
    requires
        before.no_duplicates(),
        before.contains(Owner::Element(node.key)),
        all_own(before, element_owners(list)),
        grows(later, built(node, list, before).owners),
    ensures
        ({
            let out = built(node, list, before).out;
            is_entry(out, out.len() - 1, node, shown_ids(node, list, later), later)
        }),
{
    let out = built(node, list, before).out;
    lemma_built_owners(node, list, before, later);
    lemma_grows_transitive(before, built(node, list, before).owners, later);
    lemma_grows_id(later, before, Owner::Element(node.key));
    let runs = out.drop_last();
    assert forall|i: int| 0 <= i < runs.len() implies (#[trigger] runs[i]).1.children.len() == 0 by {
        assert(shown_text(node) is Some);
    }
    lemma_childless(runs);
    assert(all_children(out) =~= out.last().1.children);
}

/// Where a walked element stands in what is emitted.
proof fn lemma_entry(
    start: Emission,
    nodes: Seq<AxNode>,
    lists: Seq<Seq<ElementKey>>,
    walked: Set<ElementKey>,
    later: Seq<Owner>,
    k: int,
) -> (p: int)
    requires
        start.owners.no_duplicates(),
        have_ids(start.owners, walked),
        nodes.len() == lists.len(),
        forall|i: int| 0 <= i < nodes.len() ==> walked.contains((#[trigger] nodes[i]).key),
        forall|i: int, a: int|
            0 <= i < lists.len() && 0 <= a < lists[i].len() ==> walked.contains(
                #[trigger] lists[i][a],
            ),
        grows(later, emit_all(start, nodes, lists).owners),
        0 <= k < nodes.len(),
    ensures
        is_entry(
            emit_all(start, nodes, lists).out,
            p,
            nodes[k],
            shown_ids(nodes[k], lists[k], later),
            later,
        ),
    decreases nodes.len(),
{
    let init = nodes.drop_last();
    let first = lists.drop_last();
    let (node, list) = (nodes.last(), lists.last());
    assert forall|i: int| 0 <= i < init.len() implies walked.contains(
        (#[trigger] init[i]).key,
    ) by {
        assert(nodes[i] == init[i]);
    }
    assert forall|i: int, a: int|
        0 <= i < first.len() && 0 <= a < first[i].len() implies walked.contains(
        #[trigger] first[i][a],
    ) by {
        assert(lists[i][a] == first[i][a]);
    }
    lemma_emission_grows(start, init, first, walked);
    let before = emit_all(start, init, first);
    let b = built(node, list, before.owners);
    assert(walked.contains(nodes[nodes.len() - 1].key));
    assert forall|i: int| 0 <= i < element_owners(list).len() implies before.owners.contains(
        #[trigger] element_owners(list)[i],
    ) by {
        assert(lists[lists.len() - 1][i] == list[i]);
        assert(walked.contains(list[i]));
    }
    lemma_built_owners(node, list, before.owners, later);
    lemma_grows_transitive(before.owners, b.owners, later);
    let out = emit_all(start, nodes, lists).out;
    if k < init.len() {
        let p = lemma_entry(start, init, first, walked, later, k);
        assert(init[k] == nodes[k] && first[k] == lists[k]);
        assert(out[p] == before.out[p]);
        p
    } else {
        lemma_built_entry(node, list, before.owners, later);
        let p = before.out.len() + b.out.len() - 1;
        assert(out[p] == b.out[b.out.len() - 1]);
        p
    }
}

/// Where a walked element stands in the update of its window.
pub proof fn lemma_window_entry(nodes: Seq<AxNode>, owners: Seq<Owner>, k: int) -> (p: int)
    requires
        owners.no_duplicates(),
        0 <= k < nodes.len(),
    ensures
        ({
            let after = window_emission(nodes, owners);
            let list = shown_lists(nodes, keys_of(nodes).to_set())[k];
            is_entry(after.out, p, nodes[k], shown_ids(nodes[k], list, after.owners), after.owners)
        }),
{
    let keys = keys_of(nodes);
    let walked = keys.to_set();
    let lists = shown_lists(nodes, walked);
    let given = with_owners(owners, element_owners(keys));
    let start = Emission {
        owners: given,
        out: Seq::empty(),
        focus: id_of(given, Owner::Element(keys[0])),
    };
    let after = window_emission(nodes, owners);
    lemma_shown_len(nodes, walked);
    lemma_with_owners_grows(owners, element_owners(keys));
    lemma_walked_have_ids(nodes, owners);
    assert forall|i: int| 0 <= i < nodes.len() implies walked.contains((#[trigger] nodes[i]).key) by {
        assert(keys[i] == nodes[i].key);
    }
    assert forall|i: int, a: int|
        0 <= i < lists.len() && 0 <= a < lists[i].len() implies walked.contains(
        #[trigger] lists[i][a],
    ) by {
        lemma_lists_walked(nodes, walked, i, a);
    }
    lemma_emission_grows(start, nodes, lists, walked);
    assert(after.owners.take(after.owners.len() as int) =~= after.owners);
    lemma_entry(start, nodes, lists, walked, after.owners, k)
}

/// The id that a window's update is rooted in is that of the first walked element.
proof fn lemma_root_id(nodes: Seq<AxNode>, owners: Seq<Owner>)
    requires
        owners.no_duplicates(),
        nodes.len() > 0,
    ensures
        window_update(nodes, owners).tree->0.root == id_of(
            window_emission(nodes, owners).owners,
            Owner::Element(nodes[0].key),
        ),
{
    let keys = keys_of(nodes);
    let walked = keys.to_set();
    let lists = shown_lists(nodes, walked);
    let given = with_owners(owners, element_owners(keys));
    let start = Emission {
        owners: given,
        out: Seq::empty(),
        focus: id_of(given, Owner::Element(keys[0])),
    };
    lemma_with_owners_grows(owners, element_owners(keys));
    lemma_walked_have_ids(nodes, owners);
    assert forall|i: int| 0 <= i < nodes.len() implies walked.contains((#[trigger] nodes[i]).key) by {
        assert(keys[i] == nodes[i].key);
    }
    lemma_emission_grows(start, nodes, lists, walked);
    assert(element_owners(keys)[0] == Owner::Element(nodes[0].key));
    lemma_grows_id(
        window_emission(nodes, owners).owners,
        given,
        Owner::Element(nodes[0].key),
    );
}

/// A window that is walked again from the same element has the same root, however many
/// ids were given meanwhile.
pub proof fn law_the_root_stays(
    nodes: Seq<AxNode>,
    owners: Seq<Owner>,
    again: Seq<AxNode>,
    later: Seq<Owner>,
)
    requires
        owners.no_duplicates(),
        nodes.len() > 0,
        again.len() > 0,
        again[0].key == nodes[0].key,
        grows(later, window_emission(nodes, owners).owners),
    ensures
        window_update(again, later).tree->0.root == window_update(nodes, owners).tree->0.root,
{
    let own = Owner::Element(nodes[0].key);
    let given = with_owners(later, element_owners(keys_of(again)));
    lemma_root_id(nodes, owners);
    lemma_window_owners(nodes, owners);
    lemma_with_owners_grows(later, element_owners(keys_of(again)));
    assert(keys_of(again)[0] == nodes[0].key);
    assert(window_emission(nodes, owners).owners.contains(Owner::Element(nodes[0].key)));
    lemma_grows_id(later, window_emission(nodes, owners).owners, own);
    lemma_grows_id(given, later, own);
}

// ---------------------------------------------------------------- a whole tree

/// The children that nodes of these shapes name.
pub open spec fn links_of(shapes: Map<NodeId, ShapeView>) -> Map<NodeId, Seq<NodeId>> {
    Map::new(|id: NodeId| shapes.contains_key(id), |id: NodeId| shapes[id].children)
}

proof fn lemma_offsets(nodes: Seq<(NodeId, NodeView)>, i: int, j: int)
    requires
        0 <= i < j <= nodes.len(),
    ensures
        all_children(nodes.take(i)).len() + nodes[i].1.children.len() <= all_children(
            nodes.take(j),
        ).len(),
    decreases j,
{
    assert(nodes.take(j).drop_last() =~= nodes.take(j - 1));
    assert(nodes.take(j).last() == nodes[j - 1]);
    if i < j - 1 {
        lemma_offsets(nodes, i, j - 1);
    }
}

/// Where a child of a node stands among all children.
proof fn lemma_child_place(nodes: Seq<(NodeId, NodeView)>, i: int, a: int) -> (p: int)
    requires
        0 <= i < nodes.len(),
        0 <= a < nodes[i].1.children.len(),
    ensures
        p == all_children(nodes.take(i)).len() + a,
        0 <= p < all_children(nodes).len(),
        all_children(nodes)[p] == nodes[i].1.children[a],
{
    let (some, rest) = (nodes.take(i + 1), nodes.skip(i + 1));
    assert(some + rest =~= nodes);
    assert(some.drop_last() =~= nodes.take(i));
    lemma_children_concat(some, rest);
    all_children(nodes.take(i)).len() + a
}

/// What is remembered of emitted nodes is theirs.
proof fn lemma_shaped_from(nodes: Seq<(NodeId, NodeView)>, id: NodeId) -> (i: int)
    requires
        shapes_of(nodes).contains_key(id),
    ensures
        0 <= i < nodes.len(),
        nodes[i].0 == id,
        shapes_of(nodes)[id].children == nodes[i].1.children,
        shapes_of(nodes)[id].selection == nodes[i].1.props.text_selection,
    decreases nodes.len(),
{
    let init = nodes.drop_last();
    if nodes.last().0 == id {
        nodes.len() - 1
    } else {
        let i = lemma_shaped_from(init, id);
        assert(init[i] == nodes[i]);
        i
    }
}

/// The first node that lists a walked element keeps it.
proof fn lemma_kept_by(nodes: Seq<AxNode>, walked: Set<ElementKey>, key: ElementKey, j: int) -> (i:
    int)
    requires
        0 <= j < nodes.len(),
        walked.contains(key),
        nodes[j].children@.contains(key),
    ensures
        0 <= i <= j,
        shown_lists(nodes, walked)[i].contains(key),
{
    let some = nodes.take(j + 1);
    let before = shown_lists(nodes.take(j), walked);
    assert(some.drop_last() =~= nodes.take(j));
    lemma_shown_len(nodes, walked);
    lemma_shown_prefix(nodes, walked, j + 1);
    lemma_shown_prefix(nodes, walked, j);
    lemma_claimed(nodes[j].children@, walked, taken(before));
    if taken(before).contains(key) {
        let i = lemma_taken_by(before, key);
        lemma_shown_len(nodes.take(j), walked);
        assert(before[i] == shown_lists(nodes, walked)[i]);
        i
    } else {
        assert(shown_lists(some, walked).last() == shown_lists(nodes, walked)[j]);
        j
    }
}

proof fn lemma_taken_by(lists: Seq<Seq<ElementKey>>, key: ElementKey) -> (i: int)
    requires
        taken(lists).contains(key),
    ensures
        0 <= i < lists.len(),
        lists[i].contains(key),
    decreases lists.len(),
{
    if lists.last().contains(key) {
        lists.len() - 1
    } else {
        lemma_taken_by(lists.drop_last(), key)
    }
}

/// What the update of a walk says of its nodes is what is remembered of them.
proof fn lemma_window_shapes(nodes: Seq<AxNode>, owners: Seq<Owner>, p: int)
    requires
        owners.no_duplicates(),
        distinct_keys(nodes),
        window_emission(nodes, owners).owners.len() <= u64::MAX,
        nodes.len() > 0,
        0 <= p < window_update(nodes, owners).nodes.len(),
    ensures
        ({
            let out = window_update(nodes, owners).nodes;
            &&& shapes_of(out).contains_key(out[p].0)
            &&& shapes_of(out)[out[p].0].children == out[p].1.children
            &&& shapes_of(out)[out[p].0].selection == out[p].1.props.text_selection
        }),
{
    let out = window_update(nodes, owners).nodes;
    law_no_id_is_emitted_twice(nodes, owners);
    assert forall|a: int, b: int| 0 <= a < b < out.len() implies (#[trigger] out[a]).0 != (
    #[trigger] out[b]).0 by {
        assert(node_ids(out)[a] != node_ids(out)[b]);
    }
    lemma_shape(out, p);
}

/// Every walked element can be reached in the update of its window.
proof fn lemma_reach_element(nodes: Seq<AxNode>, owners: Seq<Owner>, k: int)
    requires
        owners.no_duplicates(),
        distinct_keys(nodes),
        discovered(nodes),
        window_emission(nodes, owners).owners.len() <= u64::MAX,
        0 <= k < nodes.len(),
    ensures
        reachable(
            links_of(shapes_of(window_update(nodes, owners).nodes)),
            window_update(nodes, owners).tree->0.root,
            id_of(window_emission(nodes, owners).owners, Owner::Element(nodes[k].key)),
        ),
    decreases k,
{
    let update = window_update(nodes, owners);
    let after = window_emission(nodes, owners);
    let links = links_of(shapes_of(update.nodes));
    let walked = keys_of(nodes).to_set();
    let lists = shown_lists(nodes, walked);
    let key = nodes[k].key;
    let q = lemma_window_entry(nodes, owners, k);
    lemma_window_shapes(nodes, owners, q);
    lemma_root_id(nodes, owners);
    if k == 0 {
        lemma_reach_root(links, update.tree->0.root);
    } else {
        assert(listed(nodes, key, k));
        let j = choose|j: int| 0 <= j < k && (#[trigger] nodes[j]).children@.contains(key);
        assert(keys_of(nodes)[k] == key);
        let i = lemma_kept_by(nodes, walked, key, j);
        lemma_reach_element(nodes, owners, i);
        let p = lemma_window_entry(nodes, owners, i);
        lemma_window_shapes(nodes, owners, p);
        let shown = shown_ids(nodes[i], lists[i], after.owners);
        let a = lists[i].index_of(key);
        assert(element_owners(lists[i])[a] == Owner::Element(key));
        assert(shown[a] == id_of(after.owners, Owner::Element(key)));
        lemma_reach_child(links, update.tree->0.root, update.nodes[p].0, update.nodes[q].0);
    }
}

/// The update of a walk is a whole tree: it has its root, every child that a node
/// names, once, and nothing that cannot be reached.
pub proof fn law_a_walk_is_a_whole_tree(nodes: Seq<AxNode>, owners: Seq<Owner>)
    requires
        owners.no_duplicates(),
        nodes.len() > 0,
        distinct_keys(nodes),
        discovered(nodes),
        window_emission(nodes, owners).owners.len() <= u64::MAX,
    ensures
        is_whole(
            links_of(shapes_of(window_update(nodes, owners).nodes)),
            window_update(nodes, owners).tree->0.root,
        ),
{
    let update = window_update(nodes, owners);
    let after = window_emission(nodes, owners);
    let out = update.nodes;
    let root = update.tree->0.root;
    let shapes = shapes_of(out);
    let links = links_of(shapes);
    let lists = shown_lists(nodes, keys_of(nodes).to_set());
    law_root_and_focus_are_emitted(nodes, owners);
    let r = node_ids(out).index_of(root);
    assert(out[r].0 == root);
    lemma_window_shapes(nodes, owners, r);
    assert forall|id: NodeId, a: int|
        links.contains_key(id) && 0 <= a < links[id].len() implies links.contains_key(
        #[trigger] links[id][a],
    ) by {
        let i = lemma_shaped_from(out, id);
        let p = lemma_child_place(out, i, a);
        law_every_child_is_emitted(nodes, owners, p);
        let j = node_ids(out).index_of(links[id][a]);
        assert(out[j].0 == links[id][a]);
        lemma_window_shapes(nodes, owners, j);
    }
    assert forall|id: NodeId| links.contains_key(id) implies #[trigger] reachable(
        links,
        root,
        id,
    ) by {
        let i = lemma_shaped_from(out, id);
        lemma_window_owners(nodes, owners);
        let all = emitted(nodes, after.owners);
        assert(node_ids(out)[i] == ids_at(after.owners, all)[i]);
        let k = lemma_emitted_for(nodes, after.owners, i);
        lemma_reach_element(nodes, owners, k);
        let own = Owner::Element(nodes[k].key);
        if all[i] != own {
            let p = lemma_window_entry(nodes, owners, k);
            lemma_window_shapes(nodes, owners, p);
            let runs = runs_under(nodes[k], id_of(after.owners, own));
            let shown = shown_ids(nodes[k], lists[k], after.owners);
            let a = runs.index_of(all[i]);
            let elements = element_owners(lists[k]);
            assert((elements + runs)[elements.len() + a] == all[i]);
            assert(shown[elements.len() + a] == id);
            lemma_reach_child(links, root, out[p].0, id);
        }
    }
    assert forall|p: NodeId, a: int, q: NodeId, b: int|
        links.contains_key(p) && links.contains_key(q) && 0 <= a < links[p].len() && 0 <= b
            < links[q].len() && #[trigger] links[p][a] == #[trigger] links[q][b] implies p == q
        && a == b by {
        let i = lemma_shaped_from(out, p);
        let j = lemma_shaped_from(out, q);
        let x = lemma_child_place(out, i, a);
        let y = lemma_child_place(out, j, b);
        law_no_child_is_listed_twice(nodes, owners);
        assert(x == y);
        if i < j {
            lemma_offsets(out, i, j);
        }
        if j < i {
            lemma_offsets(out, j, i);
        }
    }
}

/// The elements that a node is remembered to have been emitted with stand first among
/// the children of its entry; its text runs come behind them.
pub proof fn law_emitted_children_stand_first(nodes: Seq<AxNode>, owners: Seq<Owner>, k: int)
    requires
        owners.no_duplicates(),
        distinct_keys(nodes),
        0 <= k < nodes.len(),
        window_emission(nodes, owners).owners.len() <= u64::MAX,
    ensures
        ({
            let after = window_emission(nodes, owners).owners;
            let key = nodes[k].key;
            let id = id_of(after, Owner::Element(key));
            let elements = shown_map(nodes, keys_of(nodes).to_set())[key];
            shapes_of(window_update(nodes, owners).nodes)[id].children == element_ids(
                after,
                elements,
            ) + ids_at(after, runs_under(nodes[k], id))
        }),
{
    let after = window_emission(nodes, owners).owners;
    let walked = keys_of(nodes).to_set();
    let list = shown_lists(nodes, walked)[k];
    let p = lemma_window_entry(nodes, owners, k);
    lemma_window_shapes(nodes, owners, p);
    lemma_shown_map(nodes, walked, k);
    let id = id_of(after, Owner::Element(nodes[k].key));
    assert(shown_ids(nodes[k], list, after) =~= element_ids(after, list) + ids_at(
        after,
        runs_under(nodes[k], id),
    ));
}

proof fn lemma_shown_map(nodes: Seq<AxNode>, walked: Set<ElementKey>, k: int)
    requires
        distinct_keys(nodes),
        0 <= k < nodes.len(),
    ensures
        shown_map(nodes, walked).contains_key(nodes[k].key),
        shown_map(nodes, walked)[nodes[k].key] == shown_lists(nodes, walked)[k],
    decreases nodes.len(),
{
    let init = nodes.drop_last();
    let last = nodes.len() - 1;
    lemma_shown_len(nodes, walked);
    lemma_shown_len(init, walked);
    if k < last {
        assert(keys_of(init) =~= keys_of(nodes).drop_last());
        lemma_shown_map(init, walked, k);
        assert(init[k] == nodes[k]);
        assert(keys_of(nodes)[k] == nodes[k].key && keys_of(nodes)[last] == nodes.last().key);
        assert(shown_lists(init, walked)[k] == shown_lists(nodes, walked)[k]);
    }
}

// ---------------------------------------------------------------- refreshes

/// Whether a window is as a walk left it, as far as its shape goes: the ids that the
/// walk gave, the shapes of its update, and every node of the update known to be held.
pub open spec fn mirrors(window: WindowView, nodes: Seq<AxNode>, owners: Seq<Owner>) -> bool {
    let out = window_update(nodes, owners).nodes;
    &&& nodes.len() > 0
    &&& distinct_keys(nodes)
    &&& owners.no_duplicates()
    &&& window.owners == window_emission(nodes, owners).owners
    &&& window.owners.len() <= u64::MAX
    &&& window.shapes == shapes_of(out)
    &&& forall|i: int|
        0 <= i < out.len() ==> window.emitted.nodes.contains_key((#[trigger] out[i]).0)
}

/// Whether nodes that are ready for the wire are those of an update.
pub open spec fn readied(
    ready: Seq<(NodeId, ToolkitNode)>,
    nodes: Seq<(NodeId, NodeView)>,
) -> bool {
    &&& ready.len() == nodes.len()
    &&& forall|i: int| 0 <= i < nodes.len() ==> (#[trigger] ready[i]).0 == nodes[i].0
}

proof fn lemma_readied_once(
    nodes: Seq<AxNode>,
    owners: Seq<Owner>,
    ready: Seq<(NodeId, ToolkitNode)>,
)
    requires
        nodes.len() > 0,
        distinct_keys(nodes),
        owners.no_duplicates(),
        window_emission(nodes, owners).owners.len() <= u64::MAX,
        readied(ready, window_update(nodes, owners).nodes),
    ensures
        each_id_once(ready),
{
    let out = window_update(nodes, owners).nodes;
    law_no_id_is_emitted_twice(nodes, owners);
    assert forall|a: int, b: int| 0 <= a < b < ready.len() implies (#[trigger] ready[a]).0 != (
    #[trigger] ready[b]).0 by {
        assert(node_ids(out)[a] != node_ids(out)[b]);
    }
}

/// A window whose walk was emitted mirrors it. It is so after its first walk and after
/// every other.
pub proof fn law_a_walk_is_mirrored(
    window: WindowView,
    nodes: Seq<AxNode>,
    owners: Seq<Owner>,
    full: WireView,
)
    requires
        nodes.len() > 0,
        distinct_keys(nodes),
        owners.no_duplicates(),
        window.owners == window_emission(nodes, owners).owners,
        window.owners.len() <= u64::MAX,
        window.shapes == shapes_of(window_update(nodes, owners).nodes),
        readied(full.nodes, window_update(nodes, owners).nodes),
        all_serialize(full.nodes),
    ensures
        mirrors(
            (WindowView {
                emitted: after_walk(window.emitted, full, encodings(full.nodes)),
                ..window
            }),
            nodes,
            owners,
        ),
{
    let out = window_update(nodes, owners).nodes;
    let after = after_walk(window.emitted, full, encodings(full.nodes));
    lemma_readied_once(nodes, owners, full.nodes);
    assert forall|i: int| 0 <= i < out.len() implies after.nodes.contains_key(
        (#[trigger] out[i]).0,
    ) by {
        assert(full.nodes[i].0 == out[i].0);
        lemma_remembered(full.nodes, encodings(full.nodes), i);
    }
}

/// A window that mirrors a walk does so after a refresh.
pub proof fn law_a_refresh_leaves_the_mirror(
    window: WindowView,
    nodes: Seq<AxNode>,
    owners: Seq<Owner>,
    id: NodeId,
    encoded: Option<Seq<u8>>,
)
    requires
        mirrors(window, nodes, owners),
    ensures
        mirrors(
            (WindowView { emitted: after_refresh(window.emitted, id, encoded), ..window }),
            nodes,
            owners,
        ),
{
}

proof fn lemma_all_held(emitted: EmittedView, ids: Seq<NodeId>)
    requires
        forall|i: int| 0 <= i < ids.len() ==> emitted.nodes.contains_key(#[trigger] ids[i]),
    ensures
        held_ids(emitted, ids) == ids,
    decreases ids.len(),
{
    if ids.len() > 0 {
        let init = ids.drop_last();
        assert forall|i: int| 0 <= i < init.len() implies emitted.nodes.contains_key(
            #[trigger] init[i],
        ) by {
            assert(ids[i] == init[i]);
        }
        lemma_all_held(emitted, init);
        assert(emitted.nodes.contains_key(ids[ids.len() - 1]));
        assert(init.push(ids.last()) =~= ids);
    }
}

/// A refresh never changes the shape of the tree: whatever is read of an element, its
/// node keeps the children it was emitted with, its text runs among them, and its
/// selection. And an element that reads as it was walked is refreshed to the very node
/// that was emitted.
pub proof fn law_a_refresh_keeps_the_shape(
    window: WindowView,
    nodes: Seq<AxNode>,
    owners: Seq<Owner>,
    k: int,
    read: AxNode,
)
    requires
        mirrors(window, nodes, owners),
        0 <= k < nodes.len(),
    ensures
        ({
            let out = window_update(nodes, owners).nodes;
            let key = nodes[k].key;
            let id = id_of(window.owners, Owner::Element(key));
            &&& holding(key)(window)
            &&& exists|p: int| 0 <= p < out.len() && (#[trigger] out[p]).0 == id
            &&& forall|p: int|
                0 <= p < out.len() && (#[trigger] out[p]).0 == id ==> {
                    let entry = out[p].1;
                    let again = refreshed_view(window, key, read);
                    &&& again.children == entry.children
                    &&& again.props.text_selection == entry.props.text_selection
                    &&& refreshed_view(window, key, nodes[k]) == entry
                }
        }),
{
    let out = window_update(nodes, owners).nodes;
    let key = nodes[k].key;
    let id = id_of(window.owners, Owner::Element(key));
    lemma_window_owners(nodes, owners);
    let p = lemma_window_entry(nodes, owners, k);
    assert(out[p].0 == id);
    lemma_window_shapes(nodes, owners, p);
    assert forall|a: int| 0 <= a < out[p].1.children.len() implies window.emitted.nodes.contains_key(
        #[trigger] out[p].1.children[a],
    ) by {
        let x = lemma_child_place(out, p, a);
        law_every_child_is_emitted(nodes, owners, x);
        let j = node_ids(out).index_of(out[p].1.children[a]);
        assert(out[j].0 == out[p].1.children[a]);
    }
    lemma_all_held(window.emitted, out[p].1.children);
    law_no_id_is_emitted_twice(nodes, owners);
    assert forall|q: int| 0 <= q < out.len() && (#[trigger] out[q]).0 == id implies q == p by {
        assert(node_ids(out)[q] == node_ids(out)[p]);
    }
}

/// An element that reads as it was walked sends nothing, provided that its node is made
/// ready for the wire as it was then.
pub proof fn law_an_unchanged_refresh_sends_nothing(
    window: WindowView,
    nodes: Seq<AxNode>,
    owners: Seq<Owner>,
    k: int,
    ready: spec_fn(NodeView) -> ToolkitNode,
)
    requires
        mirrors(window, nodes, owners),
        0 <= k < nodes.len(),
        ({
            let out = window_update(nodes, owners).nodes;
            let id = id_of(window.owners, Owner::Element(nodes[k].key));
            forall|p: int|
                0 <= p < out.len() && (#[trigger] out[p]).0 == id ==> encoding(ready(out[p].1))
                    == Some(window.emitted.nodes[id])
        }),
    ensures
        ({
            let id = id_of(window.owners, Owner::Element(nodes[k].key));
            let again = refreshed_view(window, nodes[k].key, nodes[k]);
            !differs(window.emitted.nodes, id, encoding(ready(again)))
        }),
{
    law_a_refresh_keeps_the_shape(window, nodes, owners, k, nodes[k]);
}

// ---------------------------------------------------------------- the consumer

/// Whether a consumer reads off the serialized nodes of an update the children that
/// the update gives them.
pub open spec fn legible(
    ready: Seq<(NodeId, ToolkitNode)>,
    nodes: Seq<(NodeId, NodeView)>,
    reads: spec_fn(Seq<u8>) -> Seq<NodeId>,
) -> bool {
    &&& readied(ready, nodes)
    &&& all_serialize(ready)
    &&& forall|i: int| 0 <= i < nodes.len() ==> reads(encoding((#[trigger] ready[i]).1)->0)
        == nodes[i].1.children
}

/// Whether a consumer reads off what is known to be sent the children that a walk gave.
pub open spec fn reads_the_walk(
    window: WindowView,
    nodes: Seq<AxNode>,
    owners: Seq<Owner>,
    reads: spec_fn(Seq<u8>) -> Seq<NodeId>,
) -> bool {
    let out = window_update(nodes, owners).nodes;
    forall|i: int|
        0 <= i < out.len() ==> reads(window.emitted.nodes[(#[trigger] out[i]).0])
            == out[i].1.children
}

/// A walk keeps the consumer of a window in step: it tolerates what is sent of it, and
/// what it then holds is exactly what is known to be sent.
pub proof fn law_walks_keep_the_consumer_in_step(
    window: WindowView,
    nodes: Seq<AxNode>,
    owners: Seq<Owner>,
    full: WireView,
    held: Map<NodeId, Seq<u8>>,
    reads: spec_fn(Seq<u8>) -> Seq<NodeId>,
)
    requires
        nodes.len() > 0,
        distinct_keys(nodes),
        discovered(nodes),
        owners.no_duplicates(),
        window_emission(nodes, owners).owners.len() <= u64::MAX,
        legible(full.nodes, window_update(nodes, owners).nodes, reads),
        in_step(window.emitted, held, reads, window_update(nodes, owners).tree->0.root),
    ensures
        ({
            let root = window_update(nodes, owners).tree->0.root;
            let after = after_walk(window.emitted, full, encodings(full.nodes));
            &&& match sent(window.emitted, full, encodings(full.nodes)) {
                Some(update) => {
                    &&& tolerates(held, update.nodes, reads, root)
                    &&& in_step(after, received(held, update.nodes, reads, root), reads, root)
                },
                None => in_step(after, held, reads, root),
            }
            &&& reads_the_walk((WindowView { emitted: after, ..window }), nodes, owners, reads)
        }),
{
    let out = window_update(nodes, owners).nodes;
    let root = window_update(nodes, owners).tree->0.root;
    let codes = encodings(full.nodes);
    let whole = remembered(full.nodes, codes);
    let (links, shown) = (links_in(whole, reads), links_of(shapes_of(out)));
    lemma_readied_once(nodes, owners, full.nodes);
    assert forall|i: int| 0 <= i < out.len() implies whole.contains_key((#[trigger] out[i]).0)
        && reads(whole[out[i].0]) == out[i].1.children by {
        assert(full.nodes[i].0 == out[i].0);
        lemma_remembered(full.nodes, codes, i);
    }
    assert forall|id: NodeId| #[trigger] links.contains_key(id) implies shown.contains_key(id)
        && links[id] == shown[id] by {
        lemma_remembered_from(full.nodes, codes, id);
        let i = choose|i: int|
            0 <= i < full.nodes.len() && (#[trigger] full.nodes[i]).0 == id && codes[i] == Some(
                whole[id],
            );
        assert(out[i].0 == id);
        lemma_window_shapes(nodes, owners, i);
    }
    assert forall|id: NodeId| #[trigger] shown.contains_key(id) implies links.contains_key(id) by {
        let i = lemma_shaped_from(out, id);
        assert(whole.contains_key(out[i].0));
    }
    assert(links =~= shown);
    law_a_walk_is_a_whole_tree(nodes, owners);
    law_a_walk_keeps_the_consumer_in_step(window.emitted, held, full, reads, root);
}

/// A refresh keeps the consumer of a window in step, whatever was read: it tolerates
/// the node, drops nothing, and holds exactly what is known to be sent, so that the
/// next walk finds it where it believes it to be.
pub proof fn law_refreshes_keep_the_consumer_in_step(
    window: WindowView,
    nodes: Seq<AxNode>,
    owners: Seq<Owner>,
    k: int,
    read: AxNode,
    node: ToolkitNode,
    held: Map<NodeId, Seq<u8>>,
    reads: spec_fn(Seq<u8>) -> Seq<NodeId>,
)
    requires
        mirrors(window, nodes, owners),
        reads_the_walk(window, nodes, owners, reads),
        in_step(window.emitted, held, reads, window_update(nodes, owners).tree->0.root),
        0 <= k < nodes.len(),
        encoding(node) matches Some(bytes) && reads(bytes) == refreshed_view(
            window,
            nodes[k].key,
            read,
        ).children,
    ensures
        ({
            let root = window_update(nodes, owners).tree->0.root;
            let id = id_of(window.owners, Owner::Element(nodes[k].key));
            let after = after_refresh(window.emitted, id, encoding(node));
            let update = seq![(id, node)];
            &&& tolerates(held, update, reads, root)
            &&& received(held, update, reads, root) == held.insert(id, encoding(node)->0)
            &&& in_step(after, received(held, update, reads, root), reads, root)
            &&& !differs(window.emitted.nodes, id, encoding(node)) ==> in_step(
                after,
                held,
                reads,
                root,
            )
            &&& reads_the_walk((WindowView { emitted: after, ..window }), nodes, owners, reads)
        }),
{
    let out = window_update(nodes, owners).nodes;
    let root = window_update(nodes, owners).tree->0.root;
    let id = id_of(window.owners, Owner::Element(nodes[k].key));
    law_a_refresh_keeps_the_shape(window, nodes, owners, k, read);
    let p = choose|p: int| 0 <= p < out.len() && (#[trigger] out[p]).0 == id;
    assert(window.emitted.nodes.contains_key(out[p].0));
    law_a_refresh_keeps_the_consumer_in_step(window.emitted, held, id, node, reads, root);
}

} // verus!
