//! What holds of every window's update.

use crate::atspi::text::capped;
use crate::ax::element::id_of;
use crate::ax::element::lemma_place;
use crate::ax::element::lemma_with_owners;
use crate::ax::element::with_owners;
use crate::ax::element::ElementKey;
use crate::ax::element::Owner;
use crate::ax::node::container_of;
use crate::ax::node::AxNode;
use crate::ax::text::layout_of;
use crate::ax::text::run_node;
use crate::ax::text::run_owners;
use crate::ax::text::runs_of;
use crate::ax::text::selection_at;
use crate::ax::text::spans_of;
use crate::ax::walk::built;
use crate::ax::walk::distinct_keys;
use crate::ax::walk::element_ids;
use crate::ax::walk::element_owners;
use crate::ax::walk::emit_all;
use crate::ax::walk::have_ids;
use crate::ax::walk::keys_of;
use crate::ax::walk::law_each_child_has_one_parent;
use crate::ax::walk::lemma_owners_kept;
use crate::ax::walk::lemma_shown_len;
use crate::ax::walk::lemma_walked_have_ids;
use crate::ax::walk::shown_lists;
use crate::ax::walk::shown_text;
use crate::ax::walk::window_emission;
use crate::ax::walk::window_update;
use crate::ax::walk::Emission;
use crate::tree::node_ids;
use crate::tree::NodeId;
use crate::tree::NodeView;
use crate::tree::Properties;
use vstd::prelude::*;

verus! {

/// The runs under a node, as owners of ids.
pub open spec fn runs_under(node: AxNode, id: NodeId) -> Seq<Owner> {
    match shown_text(node) {
        Some(text) => run_owners(id, spans_of(capped(text), node.wraps@).len()),
        None => Seq::empty(),
    }
}

/// The runs under all of `nodes`.
pub open spec fn all_runs(nodes: Seq<AxNode>, owners: Seq<Owner>) -> Seq<Owner>
    decreases nodes.len(),
{
    if nodes.len() == 0 {
        Seq::empty()
    } else {
        all_runs(nodes.drop_last(), owners) + runs_under(
            nodes.last(),
            id_of(owners, Owner::Element(nodes.last().key)),
        )
    }
}

/// The owners of what is emitted: for each node its runs, then the node.
pub open spec fn emitted(nodes: Seq<AxNode>, owners: Seq<Owner>) -> Seq<Owner>
    decreases nodes.len(),
{
    if nodes.len() == 0 {
        Seq::empty()
    } else {
        let node = Owner::Element(nodes.last().key);
        (emitted(nodes.drop_last(), owners) + runs_under(nodes.last(), id_of(owners, node))).push(
            node,
        )
    }
}

/// The owners of the children of what is emitted.
pub open spec fn child_owners(
    nodes: Seq<AxNode>,
    lists: Seq<Seq<ElementKey>>,
    owners: Seq<Owner>,
) -> Seq<Owner>
    decreases nodes.len(),
{
    if nodes.len() == 0 {
        Seq::empty()
    } else {
        let id = id_of(owners, Owner::Element(nodes.last().key));
        child_owners(nodes.drop_last(), lists.drop_last(), owners) + element_owners(lists.last())
            + runs_under(nodes.last(), id)
    }
}

/// The ids of owners that have one.
pub open spec fn ids_at(owners: Seq<Owner>, all: Seq<Owner>) -> Seq<NodeId> {
    all.map_values(|o: Owner| id_of(owners, o))
}

/// The children of all of `nodes`, one node's after another's.
pub open spec fn all_children(nodes: Seq<(NodeId, NodeView)>) -> Seq<NodeId>
    decreases nodes.len(),
{
    if nodes.len() == 0 {
        Seq::empty()
    } else {
        all_children(nodes.drop_last()) + nodes.last().1.children
    }
}

/// Whether every one of `all` has an id.
pub open spec fn all_own(owners: Seq<Owner>, all: Seq<Owner>) -> bool {
    forall|i: int| 0 <= i < all.len() ==> owners.contains(#[trigger] all[i])
}

/// Whether `later` only adds owners.
pub open spec fn grows(later: Seq<Owner>, earlier: Seq<Owner>) -> bool {
    &&& later.no_duplicates()
    &&& earlier.len() <= later.len()
    &&& later.take(earlier.len() as int) == earlier
}

pub proof fn lemma_grows_id(later: Seq<Owner>, earlier: Seq<Owner>, owner: Owner)
    requires
        grows(later, earlier),
        earlier.contains(owner),
    ensures
        later.contains(owner),
        id_of(later, owner) == id_of(earlier, owner),
{
    let i = earlier.index_of(owner);
    assert(earlier[i] == owner);
    assert(later[i] == later.take(earlier.len() as int)[i]);
    lemma_place(later, i, owner);
    assert forall|a: int, b: int| 0 <= a < b < earlier.len() implies earlier[a] != earlier[b] by {
        assert(later[a] == later.take(earlier.len() as int)[a]);
        assert(later[b] == later.take(earlier.len() as int)[b]);
    }
    lemma_place(earlier, i, owner);
}

pub proof fn lemma_grows_transitive(a: Seq<Owner>, b: Seq<Owner>, c: Seq<Owner>)
    requires
        grows(b, a),
        grows(c, b),
    ensures
        grows(c, a),
{
    assert(c.take(a.len() as int) =~= c.take(b.len() as int).take(a.len() as int));
}

pub proof fn lemma_with_owners_grows(owners: Seq<Owner>, more: Seq<Owner>)
    requires
        owners.no_duplicates(),
    ensures
        grows(with_owners(owners, more), owners),
        all_own(with_owners(owners, more), more),
{
    lemma_with_owners(owners, more);
    assert forall|i: int| 0 <= i < more.len() implies with_owners(owners, more).contains(
        #[trigger] more[i],
    ) by {
        assert(more.contains(more[i]));
    }
}

/// Building nodes only adds owners, and those are their runs.
pub proof fn lemma_emission_grows(
    start: Emission,
    nodes: Seq<AxNode>,
    lists: Seq<Seq<ElementKey>>,
    walked: Set<ElementKey>,
)
    requires
        start.owners.no_duplicates(),
        have_ids(start.owners, walked),
        forall|i: int| 0 <= i < nodes.len() ==> walked.contains((#[trigger] nodes[i]).key),
    ensures
        grows(emit_all(start, nodes, lists).owners, start.owners),
        have_ids(emit_all(start, nodes, lists).owners, walked),
    decreases nodes.len(),
{
    let after = emit_all(start, nodes, lists).owners;
    if nodes.len() == 0 {
        assert(after.take(after.len() as int) =~= after);
    } else {
        let init = nodes.drop_last();
        assert forall|i: int| 0 <= i < init.len() implies walked.contains(
            (#[trigger] init[i]).key,
        ) by {
            assert(nodes[i] == init[i]);
        }
        lemma_emission_grows(start, init, lists.drop_last(), walked);
        let before = emit_all(start, init, lists.drop_last()).owners;
        let node = nodes.last();
        let id = id_of(before, Owner::Element(node.key));
        match shown_text(node) {
            Some(text) => {
                let runs = runs_under(node, id);
                lemma_with_owners_grows(before, runs);
                lemma_grows_transitive(start.owners, before, after);
                lemma_owners_kept(before, runs, walked);
            },
            None => {},
        }
    }
}

pub proof fn lemma_children_concat(a: Seq<(NodeId, NodeView)>, b: Seq<(NodeId, NodeView)>)
    ensures
        all_children(a + b) == all_children(a) + all_children(b),
    decreases b.len(),
{
    if b.len() == 0 {
        assert(a + b =~= a);
        assert(all_children(a) + all_children(b) =~= all_children(a));
    } else {
        lemma_children_concat(a, b.drop_last());
        assert((a + b).drop_last() =~= a + b.drop_last());
        assert(all_children(a + b) =~= all_children(a) + all_children(b));
    }
}

pub proof fn lemma_childless(nodes: Seq<(NodeId, NodeView)>)
    requires
        forall|i: int| 0 <= i < nodes.len() ==> (#[trigger] nodes[i]).1.children.len() == 0,
    ensures
        all_children(nodes) == Seq::<NodeId>::empty(),
    decreases nodes.len(),
{
    if nodes.len() > 0 {
        let init = nodes.drop_last();
        assert forall|i: int| 0 <= i < init.len() implies (
        #[trigger] init[i]).1.children.len() == 0 by {
            assert(nodes[i] == init[i]);
        }
        lemma_childless(init);
        assert(nodes[nodes.len() - 1].1.children.len() == 0);
        assert(all_children(nodes) =~= Seq::<NodeId>::empty());
    }
}

/// Ids of owners read from a table are the same in one that has grown.
proof fn lemma_ids_at_grows(later: Seq<Owner>, earlier: Seq<Owner>, all: Seq<Owner>)
    requires
        grows(later, earlier),
        all_own(earlier, all),
    ensures
        ids_at(later, all) == ids_at(earlier, all),
        all_own(later, all),
{
    assert forall|i: int| 0 <= i < all.len() implies later.contains(#[trigger] all[i]) && id_of(
        later,
        all[i],
    ) == id_of(earlier, all[i]) by {
        lemma_grows_id(later, earlier, all[i]);
    }
    assert(ids_at(later, all) =~= ids_at(earlier, all));
}

/// What is emitted of one node, by owner, in any later table.
pub proof fn lemma_built_owners(
    node: AxNode,
    list: Seq<ElementKey>,
    before: Seq<Owner>,
    later: Seq<Owner>,
)
    requires
        before.no_duplicates(),
        before.contains(Owner::Element(node.key)),
        all_own(before, element_owners(list)),
        grows(later, built(node, list, before).owners),
    ensures
        ({
            let b = built(node, list, before);
            let runs = runs_under(node, id_of(later, Owner::Element(node.key)));
            &&& grows(b.owners, before)
            &&& node_ids(b.out) == ids_at(later, runs.push(Owner::Element(node.key)))
            &&& all_children(b.out) == ids_at(later, element_owners(list) + runs)
            &&& all_own(later, runs.push(Owner::Element(node.key)))
            &&& all_own(later, element_owners(list) + runs)
        }),
{
    let own = Owner::Element(node.key);
    let b = built(node, list, before);
    let id = id_of(before, own);
    let runs = runs_under(node, id);
    let elements = element_owners(list);
    if shown_text(node) is None {
        assert(before.take(before.len() as int) =~= before);
        assert(b.owners == before);
    } else {
        lemma_with_owners_grows(before, runs);
    }
    lemma_grows_transitive(before, b.owners, later);
    lemma_grows_id(later, before, own);
    lemma_ids_at_grows(later, before, elements);
    assert(ids_at(before, elements) =~= element_ids(before, list));
    assert(all_own(b.owners, runs));
    lemma_ids_at_grows(later, b.owners, runs);
    assert(ids_at(later, elements + runs) =~= ids_at(later, elements) + ids_at(later, runs));
    assert forall|i: int| 0 <= i < (elements + runs).len() implies later.contains(
        #[trigger] (elements + runs)[i],
    ) by {
        if i < elements.len() {
            assert(elements[i] == (elements + runs)[i]);
        } else {
            assert(runs[i - elements.len()] == (elements + runs)[i]);
        }
    }
    assert forall|i: int| 0 <= i < runs.push(own).len() implies later.contains(
        #[trigger] runs.push(own)[i],
    ) by {
        if i < runs.len() {
            assert(runs[i] == runs.push(own)[i]);
        }
    }
    match shown_text(node) {
        Some(text) => {
            let shown = capped(text);
            let nodes = runs_of(shown, node.wraps@, id, b.owners);
            assert(node_ids(nodes) =~= ids_at(b.owners, runs));
            assert forall|i: int| 0 <= i < nodes.len() implies (
            #[trigger] nodes[i]).1.children.len() == 0 by {}
            lemma_childless(nodes);
            assert(b.out.drop_last() =~= nodes);
            assert(all_children(b.out) =~= ids_at(later, elements + runs));
            assert(node_ids(b.out) =~= ids_at(later, runs.push(own)));
        },
        None => {
            let none = Seq::<(NodeId, NodeView)>::empty();
            assert(b.out.drop_last() =~= none);
            lemma_childless(none);
            assert(elements + runs =~= elements);
            assert(all_children(b.out) =~= b.out.last().1.children);
            assert(b.out.last().1.children == element_ids(before, list));
            assert(node_ids(b.out) =~= ids_at(later, runs.push(own)));
        },
    }
}

/// What is emitted of all nodes, by owner, in any later table.
proof fn lemma_emission_owners(
    start: Emission,
    nodes: Seq<AxNode>,
    lists: Seq<Seq<ElementKey>>,
    walked: Set<ElementKey>,
    later: Seq<Owner>,
)
    requires
        start.owners.no_duplicates(),
        start.out.len() == 0,
        have_ids(start.owners, walked),
        nodes.len() == lists.len(),
        forall|i: int| 0 <= i < nodes.len() ==> walked.contains((#[trigger] nodes[i]).key),
        forall|i: int, a: int|
            0 <= i < lists.len() && 0 <= a < lists[i].len() ==> walked.contains(
                #[trigger] lists[i][a],
            ),
        grows(later, emit_all(start, nodes, lists).owners),
    ensures
        ({
            let after = emit_all(start, nodes, lists);
            &&& node_ids(after.out) == ids_at(later, emitted(nodes, later))
            &&& all_children(after.out) == ids_at(later, child_owners(nodes, lists, later))
            &&& all_own(later, emitted(nodes, later))
            &&& all_own(later, child_owners(nodes, lists, later))
        }),
    decreases nodes.len(),
{
    let after = emit_all(start, nodes, lists);
    if nodes.len() == 0 {
        assert(node_ids(after.out) =~= ids_at(later, emitted(nodes, later)));
        assert(all_children(after.out) =~= ids_at(later, child_owners(nodes, lists, later)));
    } else {
        let init = nodes.drop_last();
        let first = lists.drop_last();
        let node = nodes.last();
        let list = lists.last();
        assert forall|i: int| 0 <= i < init.len() implies walked.contains(
            (#[trigger] init[i]).key,
        ) by {
            assert(nodes[i] == init[i]);
        }
        assert forall|i: int, a: int|
            0 <= i < first.len() && 0 <= a < first[i].len() implies walked.contains(
            #[trigger] first[i][a],
        ) by {
            assert(lists[i][a] == first[i][a]);
        }
        lemma_emission_grows(start, init, first, walked);
        let before = emit_all(start, init, first);
        assert(walked.contains(nodes[nodes.len() - 1].key));
        assert forall|i: int| 0 <= i < element_owners(list).len() implies before.owners.contains(
            #[trigger] element_owners(list)[i],
        ) by {
            assert(lists[lists.len() - 1][i] == list[i]);
            assert(walked.contains(list[i]));
        }
        lemma_built_owners(node, list, before.owners, later);
        let b = built(node, list, before.owners);
        lemma_grows_transitive(before.owners, b.owners, later);
        lemma_emission_owners(start, init, first, walked, later);
        let id = id_of(later, Owner::Element(node.key));
        let runs = runs_under(node, id);
        lemma_children_concat(before.out, b.out);
        assert(node_ids(after.out) =~= node_ids(before.out) + node_ids(b.out));
        assert(emitted(nodes, later) =~= emitted(init, later) + runs.push(
            Owner::Element(node.key),
        ));
        assert(node_ids(after.out) =~= ids_at(later, emitted(nodes, later)));
        assert(child_owners(nodes, lists, later) =~= child_owners(init, first, later) + (
        element_owners(list) + runs));
        assert(all_children(after.out) =~= ids_at(later, child_owners(nodes, lists, later)));
        lemma_all_own_concat(later, emitted(init, later), runs.push(Owner::Element(node.key)));
        lemma_all_own_concat(
            later,
            child_owners(init, first, later),
            element_owners(list) + runs,
        );
    }
}

proof fn lemma_all_own_concat(owners: Seq<Owner>, a: Seq<Owner>, b: Seq<Owner>)
    requires
        all_own(owners, a),
        all_own(owners, b),
    ensures
        all_own(owners, a + b),
{
    assert forall|i: int| 0 <= i < (a + b).len() implies owners.contains(#[trigger] (a + b)[i]) by {
        if i < a.len() {
            assert(a[i] == (a + b)[i]);
        } else {
            assert(b[i - a.len()] == (a + b)[i]);
        }
    }
}

/// Different owners have different ids.
proof fn lemma_ids_distinct(owners: Seq<Owner>, all: Seq<Owner>)
    requires
        owners.no_duplicates(),
        owners.len() <= u64::MAX,
        all_own(owners, all),
        all.no_duplicates(),
    ensures
        ids_at(owners, all).no_duplicates(),
{
    assert forall|i: int, j: int| 0 <= i < j < all.len() implies ids_at(owners, all)[i] != ids_at(
        owners,
        all,
    )[j] by {
        let (p, q) = (owners.index_of(all[i]), owners.index_of(all[j]));
        assert(owners.contains(all[i]) && owners.contains(all[j]));
        assert(owners[p] == all[i] && owners[q] == all[j]);
    }
}

/// Where an emitted owner comes from: the node itself, or a run under it.
pub open spec fn emitted_for(nodes: Seq<AxNode>, owners: Seq<Owner>, owner: Owner, k: int) -> bool {
    0 <= k < nodes.len() && (owner == Owner::Element(nodes[k].key) || runs_under(
        nodes[k],
        id_of(owners, Owner::Element(nodes[k].key)),
    ).contains(owner))
}

pub proof fn lemma_emitted_for(nodes: Seq<AxNode>, owners: Seq<Owner>, i: int) -> (k: int)
    requires
        0 <= i < emitted(nodes, owners).len(),
    ensures
        emitted_for(nodes, owners, emitted(nodes, owners)[i], k),
    decreases nodes.len(),
{
    let init = nodes.drop_last();
    let seen = emitted(init, owners);
    let node = Owner::Element(nodes.last().key);
    let runs = runs_under(nodes.last(), id_of(owners, node));
    let owner = emitted(nodes, owners)[i];
    if i < seen.len() {
        assert(seen[i] == owner);
        let k = lemma_emitted_for(init, owners, i);
        assert(init[k] == nodes[k]);
        k
    } else {
        if i < seen.len() + runs.len() {
            assert(runs[i - seen.len()] == owner);
        }
        nodes.len() - 1
    }
}

proof fn lemma_emitted_apart(
    nodes: Seq<AxNode>,
    owners: Seq<Owner>,
    owner: Owner,
    k: int,
    l: int,
)
    requires
        owners.no_duplicates(),
        owners.len() <= u64::MAX,
        distinct_keys(nodes),
        emitted_for(nodes, owners, owner, k),
        emitted_for(nodes, owners, owner, l),
        owners.contains(Owner::Element(nodes[k].key)),
        owners.contains(Owner::Element(nodes[l].key)),
    ensures
        k == l,
{
    let (a, b) = (Owner::Element(nodes[k].key), Owner::Element(nodes[l].key));
    assert(keys_of(nodes)[k] == nodes[k].key && keys_of(nodes)[l] == nodes[l].key);
    if owner is Run {
        let i = runs_under(nodes[k], id_of(owners, a)).index_of(owner);
        let j = runs_under(nodes[l], id_of(owners, b)).index_of(owner);
        assert(owner->parent == id_of(owners, a));
        assert(owner->parent == id_of(owners, b));
        let (p, q) = (owners.index_of(a), owners.index_of(b));
        assert(owners[p] == a && owners[q] == b);
        assert(p == q);
    } else {
        if runs_under(nodes[k], id_of(owners, a)).contains(owner) {
            let i = runs_under(nodes[k], id_of(owners, a)).index_of(owner);
            assert(runs_under(nodes[k], id_of(owners, a))[i] is Run);
        }
        if runs_under(nodes[l], id_of(owners, b)).contains(owner) {
            let j = runs_under(nodes[l], id_of(owners, b)).index_of(owner);
            assert(runs_under(nodes[l], id_of(owners, b))[j] is Run);
        }
    }
}

proof fn lemma_emitted_distinct(nodes: Seq<AxNode>, owners: Seq<Owner>)
    requires
        owners.no_duplicates(),
        owners.len() <= u64::MAX,
        distinct_keys(nodes),
        forall|k: int|
            0 <= k < nodes.len() ==> owners.contains(Owner::Element((#[trigger] nodes[k]).key)),
    ensures
        emitted(nodes, owners).no_duplicates(),
    decreases nodes.len(),
{
    if nodes.len() > 0 {
        let init = nodes.drop_last();
        let last = nodes.len() - 1;
        let node = Owner::Element(nodes.last().key);
        let runs = runs_under(nodes.last(), id_of(owners, node));
        let all = emitted(nodes, owners);
        let seen = emitted(init, owners);
        assert(keys_of(init) =~= keys_of(nodes).drop_last());
        assert forall|k: int| 0 <= k < init.len() implies owners.contains(
            Owner::Element((#[trigger] init[k]).key),
        ) by {
            assert(nodes[k] == init[k]);
        }
        lemma_emitted_distinct(init, owners);
        assert(nodes[last] == nodes.last());
        assert forall|i: int, j: int| 0 <= i < j < all.len() implies all[i] != all[j] by {
            if j < seen.len() {
                assert(all[i] == seen[i] && all[j] == seen[j]);
            } else {
                if j < seen.len() + runs.len() {
                    assert(runs[j - seen.len()] == all[j]);
                }
                assert(emitted_for(nodes, owners, all[j], last));
                if i < seen.len() {
                    let k = lemma_emitted_for(init, owners, i);
                    assert(seen[i] == all[i]);
                    assert(init[k] == nodes[k]);
                    assert(emitted_for(nodes, owners, all[i], k));
                    if all[i] == all[j] {
                        lemma_emitted_apart(nodes, owners, all[i], k, last);
                    }
                } else {
                    assert(runs[i - seen.len()] == all[i]);
                    if j < seen.len() + runs.len() {
                        lemma_runs_distinct(
                            nodes.last(),
                            id_of(owners, node),
                            i - seen.len(),
                            j - seen.len(),
                        );
                    } else {
                        assert(all[i] is Run);
                        assert(all[j] == node);
                    }
                }
            }
        }
    }
}

proof fn lemma_runs_distinct(node: AxNode, id: NodeId, i: int, j: int)
    requires
        0 <= i < j < runs_under(node, id).len(),
        shown_text(node) is Some,
    ensures
        runs_under(node, id)[i] != runs_under(node, id)[j],
{
    let text = capped(shown_text(node)->0);
    lemma_span_count(text, node.wraps@, text.len());
    assert(text.len() <= 65_536);
}

proof fn lemma_span_count(text: Seq<char>, wraps: Seq<bool>, n: nat)
    ensures
        crate::ax::text::spans_upto(text, wraps, n).len() <= n + 1,
    decreases n,
{
    if n > 1 {
        lemma_span_count(text, wraps, (n - 1) as nat);
    }
}

/// Where a child owner comes from: it is listed by a node, or a run under one.
pub open spec fn child_for(
    nodes: Seq<AxNode>,
    lists: Seq<Seq<ElementKey>>,
    owners: Seq<Owner>,
    owner: Owner,
    k: int,
) -> bool {
    0 <= k < nodes.len() && (element_owners(lists[k]).contains(owner) || runs_under(
        nodes[k],
        id_of(owners, Owner::Element(nodes[k].key)),
    ).contains(owner))
}

proof fn lemma_child_for(
    nodes: Seq<AxNode>,
    lists: Seq<Seq<ElementKey>>,
    owners: Seq<Owner>,
    i: int,
) -> (k: int)
    requires
        nodes.len() == lists.len(),
        0 <= i < child_owners(nodes, lists, owners).len(),
    ensures
        child_for(nodes, lists, owners, child_owners(nodes, lists, owners)[i], k),
    decreases nodes.len(),
{
    let (init, first) = (nodes.drop_last(), lists.drop_last());
    let seen = child_owners(init, first, owners);
    let elements = element_owners(lists.last());
    let runs = runs_under(nodes.last(), id_of(owners, Owner::Element(nodes.last().key)));
    let owner = child_owners(nodes, lists, owners)[i];
    if i < seen.len() {
        assert(seen[i] == owner);
        let k = lemma_child_for(init, first, owners, i);
        assert(init[k] == nodes[k] && first[k] == lists[k]);
        k
    } else {
        if i < seen.len() + elements.len() {
            assert(elements[i - seen.len()] == owner);
        } else {
            assert(runs[i - seen.len() - elements.len()] == owner);
        }
        nodes.len() - 1
    }
}

/// A child owner is a child in one place only.
proof fn lemma_child_apart(
    nodes: Seq<AxNode>,
    walked: Set<ElementKey>,
    owners: Seq<Owner>,
    owner: Owner,
    k: int,
    l: int,
)
    requires
        owners.no_duplicates(),
        owners.len() <= u64::MAX,
        distinct_keys(nodes),
        child_for(nodes, shown_lists(nodes, walked), owners, owner, k),
        child_for(nodes, shown_lists(nodes, walked), owners, owner, l),
        owners.contains(Owner::Element(nodes[k].key)),
        owners.contains(Owner::Element(nodes[l].key)),
    ensures
        k == l,
{
    let lists = shown_lists(nodes, walked);
    lemma_shown_len(nodes, walked);
    let (p, q) = (
        runs_under(nodes[k], id_of(owners, Owner::Element(nodes[k].key))),
        runs_under(nodes[l], id_of(owners, Owner::Element(nodes[l].key))),
    );
    if owner is Run {
        if element_owners(lists[k]).contains(owner) {
            let i = element_owners(lists[k]).index_of(owner);
            assert(element_owners(lists[k])[i] is Element);
        }
        if element_owners(lists[l]).contains(owner) {
            let i = element_owners(lists[l]).index_of(owner);
            assert(element_owners(lists[l])[i] is Element);
        }
        lemma_emitted_apart(nodes, owners, owner, k, l);
    } else {
        if p.contains(owner) {
            let i = p.index_of(owner);
            assert(p[i] is Run);
        }
        if q.contains(owner) {
            let i = q.index_of(owner);
            assert(q[i] is Run);
        }
        let a = element_owners(lists[k]).index_of(owner);
        let b = element_owners(lists[l]).index_of(owner);
        assert(element_owners(lists[k])[a] == owner && element_owners(lists[l])[b] == owner);
        assert(lists[k][a] == lists[l][b]);
        law_each_child_has_one_parent(nodes, walked, k, a, l, b);
    }
}

proof fn lemma_child_owners_distinct(
    nodes: Seq<AxNode>,
    walked: Set<ElementKey>,
    owners: Seq<Owner>,
    n: int,
)
    requires
        0 <= n <= nodes.len(),
        owners.no_duplicates(),
        owners.len() <= u64::MAX,
        distinct_keys(nodes),
        forall|k: int|
            0 <= k < nodes.len() ==> owners.contains(Owner::Element((#[trigger] nodes[k]).key)),
    ensures
        child_owners(
            nodes.take(n),
            shown_lists(nodes, walked).take(n),
            owners,
        ).no_duplicates(),
    decreases n,
{
    lemma_shown_len(nodes, walked);
    let lists = shown_lists(nodes, walked);
    if n > 0 {
        lemma_child_owners_distinct(nodes, walked, owners, n - 1);
        let (some, some_lists) = (nodes.take(n), lists.take(n));
        assert(some.drop_last() =~= nodes.take(n - 1));
        assert(some_lists.drop_last() =~= lists.take(n - 1));
        let all = child_owners(some, some_lists, owners);
        let seen = child_owners(nodes.take(n - 1), lists.take(n - 1), owners);
        let node = nodes[n - 1];
        let elements = element_owners(lists[n - 1]);
        let runs = runs_under(node, id_of(owners, Owner::Element(node.key)));
        assert(all == seen + elements + runs);
        assert forall|i: int, j: int| 0 <= i < j < all.len() implies all[i] != all[j] by {
            if j < seen.len() {
                assert(all[i] == seen[i] && all[j] == seen[j]);
            } else {
                if j < seen.len() + elements.len() {
                    assert(elements[j - seen.len()] == all[j]);
                } else {
                    assert(runs[j - seen.len() - elements.len()] == all[j]);
                }
                assert(child_for(nodes, lists, owners, all[j], n - 1));
                if i < seen.len() {
                    assert(seen[i] == all[i]);
                    let k = lemma_child_for(nodes.take(n - 1), lists.take(n - 1), owners, i);
                    assert(nodes.take(n - 1)[k] == nodes[k]);
                    assert(lists.take(n - 1)[k] == lists[k]);
                    assert(child_for(nodes, lists, owners, all[i], k));
                    if all[i] == all[j] {
                        lemma_child_apart(nodes, walked, owners, all[i], k, n - 1);
                    }
                } else if i < seen.len() + elements.len() {
                    assert(elements[i - seen.len()] == all[i]);
                    if j < seen.len() + elements.len() {
                        if all[i] == all[j] {
                            law_each_child_has_one_parent(
                                nodes,
                                walked,
                                n - 1,
                                i - seen.len(),
                                n - 1,
                                j - seen.len(),
                            );
                        }
                    } else {
                        assert(all[j] is Run);
                    }
                } else {
                    lemma_runs_distinct(
                        node,
                        id_of(owners, Owner::Element(node.key)),
                        i - seen.len() - elements.len(),
                        j - seen.len() - elements.len(),
                    );
                    assert(runs[i - seen.len() - elements.len()] == all[i]);
                }
            }
        }
    }
}

/// Every element of every list was walked.
pub proof fn lemma_lists_walked(nodes: Seq<AxNode>, walked: Set<ElementKey>, i: int, a: int)
    requires
        0 <= i < shown_lists(nodes, walked).len(),
        0 <= a < shown_lists(nodes, walked)[i].len(),
    ensures
        walked.contains(shown_lists(nodes, walked)[i][a]),
{
    lemma_shown_len(nodes, walked);
    law_each_child_has_one_parent(nodes, walked, i, a, i, a);
}

/// What a window's update is made of, by owner.
pub proof fn lemma_window_owners(nodes: Seq<AxNode>, owners: Seq<Owner>)
    requires
        owners.no_duplicates(),
        nodes.len() > 0,
    ensures
        ({
            let after = window_emission(nodes, owners);
            let lists = shown_lists(nodes, keys_of(nodes).to_set());
            &&& after.owners.no_duplicates()
            &&& node_ids(after.out) == ids_at(after.owners, emitted(nodes, after.owners))
            &&& all_children(after.out) == ids_at(
                after.owners,
                child_owners(nodes, lists, after.owners),
            )
            &&& all_own(after.owners, emitted(nodes, after.owners))
            &&& all_own(after.owners, child_owners(nodes, lists, after.owners))
            &&& forall|k: int|
                0 <= k < nodes.len() ==> after.owners.contains(
                    Owner::Element((#[trigger] nodes[k]).key),
                )
        }),
{
    let keys = keys_of(nodes);
    let walked = keys.to_set();
    let lists = shown_lists(nodes, walked);
    let given = with_owners(owners, element_owners(keys));
    let start = Emission {
        owners: given,
        out: Seq::empty(),
        focus: id_of(given, Owner::Element(keys[0])),
    };
    let after = window_emission(nodes, owners);
    lemma_shown_len(nodes, walked);
    lemma_with_owners(owners, element_owners(keys));
    lemma_walked_have_ids(nodes, owners);
    assert forall|i: int| 0 <= i < nodes.len() implies walked.contains((#[trigger] nodes[i]).key) by {
        assert(keys[i] == nodes[i].key);
    }
    assert forall|i: int, a: int|
        0 <= i < lists.len() && 0 <= a < lists[i].len() implies walked.contains(
        #[trigger] lists[i][a],
    ) by {
        lemma_lists_walked(nodes, walked, i, a);
    }
    lemma_emission_grows(start, nodes, lists, walked);
    assert(after.owners.take(after.owners.len() as int) =~= after.owners);
    lemma_emission_owners(start, nodes, lists, walked, after.owners);
}

/// No two nodes of a window's update have the same id.
pub proof fn law_no_id_is_emitted_twice(nodes: Seq<AxNode>, owners: Seq<Owner>)
    requires
        owners.no_duplicates(),
        nodes.len() > 0,
        distinct_keys(nodes),
        window_emission(nodes, owners).owners.len() <= u64::MAX,
    ensures
        node_ids(window_emission(nodes, owners).out).no_duplicates(),
{
    let after = window_emission(nodes, owners);
    lemma_window_owners(nodes, owners);
    lemma_emitted_distinct(nodes, after.owners);
    lemma_ids_distinct(after.owners, emitted(nodes, after.owners));
}

/// A window's update is a strict tree as far as parents go: no child is listed
/// twice, under two parents or under one.
pub proof fn law_no_child_is_listed_twice(nodes: Seq<AxNode>, owners: Seq<Owner>)
    requires
        owners.no_duplicates(),
        nodes.len() > 0,
        distinct_keys(nodes),
        window_emission(nodes, owners).owners.len() <= u64::MAX,
    ensures
        all_children(window_emission(nodes, owners).out).no_duplicates(),
{
    let after = window_emission(nodes, owners);
    let walked = keys_of(nodes).to_set();
    let lists = shown_lists(nodes, walked);
    lemma_window_owners(nodes, owners);
    lemma_shown_len(nodes, walked);
    lemma_child_owners_distinct(nodes, walked, after.owners, nodes.len() as int);
    assert(nodes.take(nodes.len() as int) =~= nodes);
    assert(lists.take(nodes.len() as int) =~= lists);
    lemma_ids_distinct(after.owners, child_owners(nodes, lists, after.owners));
}

proof fn lemma_child_emitted(
    nodes: Seq<AxNode>,
    lists: Seq<Seq<ElementKey>>,
    walked: Set<ElementKey>,
    owners: Seq<Owner>,
    owner: Owner,
    k: int,
)
    requires
        walked == keys_of(nodes).to_set(),
        lists == shown_lists(nodes, walked),
        child_for(nodes, lists, owners, owner, k),
    ensures
        emitted(nodes, owners).contains(owner),
{
    lemma_shown_len(nodes, walked);
    if element_owners(lists[k]).contains(owner) {
        let a = element_owners(lists[k]).index_of(owner);
        assert(element_owners(lists[k])[a] == owner);
        lemma_lists_walked(nodes, walked, k, a);
        let key = lists[k][a];
        let j = keys_of(nodes).index_of(key);
        assert(nodes[j].key == key);
        lemma_emitted_has(nodes, owners, j, Owner::Element(key));
    } else {
        lemma_emitted_has(nodes, owners, k, owner);
    }
}

proof fn lemma_emitted_has(nodes: Seq<AxNode>, owners: Seq<Owner>, k: int, owner: Owner)
    requires
        emitted_for(nodes, owners, owner, k),
    ensures
        emitted(nodes, owners).contains(owner),
    decreases nodes.len(),
{
    let init = nodes.drop_last();
    let node = Owner::Element(nodes.last().key);
    let runs = runs_under(nodes.last(), id_of(owners, node));
    let (seen, all) = (emitted(init, owners), emitted(nodes, owners));
    if k < nodes.len() - 1 {
        assert(init[k] == nodes[k]);
        lemma_emitted_has(init, owners, k, owner);
        let i = seen.index_of(owner);
        assert(all[i] == owner);
    } else if owner == node {
        assert(all[all.len() - 1] == owner);
    } else {
        let j = runs.index_of(owner);
        assert(all[seen.len() + j] == owner);
    }
}

/// No node of a window's update names a child that the update does not have.
pub proof fn law_every_child_is_emitted(nodes: Seq<AxNode>, owners: Seq<Owner>, i: int)
    requires
        owners.no_duplicates(),
        nodes.len() > 0,
        0 <= i < all_children(window_emission(nodes, owners).out).len(),
    ensures
        node_ids(window_emission(nodes, owners).out).contains(
            all_children(window_emission(nodes, owners).out)[i],
        ),
{
    let after = window_emission(nodes, owners);
    let walked = keys_of(nodes).to_set();
    let lists = shown_lists(nodes, walked);
    lemma_window_owners(nodes, owners);
    lemma_shown_len(nodes, walked);
    let under = child_owners(nodes, lists, after.owners);
    let k = lemma_child_for(nodes, lists, after.owners, i);
    lemma_child_emitted(nodes, lists, walked, after.owners, under[i], k);
    let all = emitted(nodes, after.owners);
    let j = all.index_of(under[i]);
    assert(all[j] == under[i]);
    assert(ids_at(after.owners, all)[j] == ids_at(after.owners, under)[i]);
    assert(node_ids(after.out)[j] == all_children(after.out)[i]);
}

proof fn lemma_ids_concat(a: Seq<(NodeId, NodeView)>, b: Seq<(NodeId, NodeView)>)
    ensures
        node_ids(a + b) == node_ids(a) + node_ids(b),
{
    assert(node_ids(a + b) =~= node_ids(a) + node_ids(b));
}

proof fn lemma_focus_emitted(start: Emission, nodes: Seq<AxNode>, lists: Seq<Seq<ElementKey>>)
    requires
        nodes.len() > 0,
        nodes.len() == lists.len(),
    ensures
        ({
            let after = emit_all(start, nodes, lists);
            let first = id_of(start.owners, Owner::Element(nodes[0].key));
            &&& node_ids(after.out).contains(first)
            &&& after.focus == start.focus || node_ids(after.out).contains(after.focus)
        }),
    decreases nodes.len(),
{
    let init = nodes.drop_last();
    let before = emit_all(start, init, lists.drop_last());
    let after = emit_all(start, nodes, lists);
    let id = id_of(before.owners, Owner::Element(nodes.last().key));
    let b = built(nodes.last(), lists.last(), before.owners);
    lemma_ids_concat(before.out, b.out);
    assert(b.out[b.out.len() - 1].0 == id);
    let n = node_ids(after.out).len() - 1;
    assert(node_ids(b.out)[b.out.len() - 1] == id);
    assert(node_ids(after.out)[n] == id);
    if init.len() > 0 {
        lemma_focus_emitted(start, init, lists.drop_last());
        let first = id_of(start.owners, Owner::Element(nodes[0].key));
        assert(init[0] == nodes[0]);
        let k = node_ids(before.out).index_of(first);
        assert(node_ids(after.out)[k] == first);
        if node_ids(before.out).contains(before.focus) {
            let j = node_ids(before.out).index_of(before.focus);
            assert(node_ids(after.out)[j] == before.focus);
        }
    } else {
        assert(nodes[0] == nodes.last());
    }
}

/// A window's update has the node it is rooted in and the node it puts focus on.
pub proof fn law_root_and_focus_are_emitted(nodes: Seq<AxNode>, owners: Seq<Owner>)
    requires
        nodes.len() > 0,
    ensures
        ({
            let update = window_update(nodes, owners);
            &&& update.tree matches Some(tree) && node_ids(update.nodes).contains(tree.root)
            &&& node_ids(update.nodes).contains(update.focus)
        }),
{
    let keys = keys_of(nodes);
    let given = with_owners(owners, element_owners(keys));
    let start = Emission {
        owners: given,
        out: Seq::empty(),
        focus: id_of(given, Owner::Element(keys[0])),
    };
    lemma_shown_len(nodes, keys.to_set());
    assert(keys[0] == nodes[0].key);
    lemma_focus_emitted(start, nodes, shown_lists(nodes, keys.to_set()));
}

/// Owners that all have an id are given no other.
proof fn lemma_with_owners_idle(owners: Seq<Owner>, more: Seq<Owner>)
    requires
        all_own(owners, more),
    ensures
        with_owners(owners, more) == owners,
    decreases more.len(),
{
    if more.len() > 0 {
        let init = more.drop_last();
        assert forall|i: int| 0 <= i < init.len() implies owners.contains(#[trigger] init[i]) by {
            assert(more[i] == init[i]);
        }
        lemma_with_owners_idle(owners, init);
        assert(owners.contains(more[more.len() - 1]));
    }
}

/// A node built once is built the same in any later table, which it leaves as it
/// is.
proof fn lemma_built_again(
    node: AxNode,
    list: Seq<ElementKey>,
    before: Seq<Owner>,
    later: Seq<Owner>,
)
    requires
        before.no_duplicates(),
        before.contains(Owner::Element(node.key)),
        all_own(before, element_owners(list)),
        grows(later, built(node, list, before).owners),
    ensures
        built(node, list, later).owners == later,
        built(node, list, later).out == built(node, list, before).out,
{
    let own = Owner::Element(node.key);
    let b = built(node, list, before);
    let id = id_of(before, own);
    let runs = runs_under(node, id);
    let elements = element_owners(list);
    if shown_text(node) is None {
        assert(before.take(before.len() as int) =~= before);
    } else {
        lemma_with_owners_grows(before, runs);
    }
    lemma_grows_transitive(before, b.owners, later);
    lemma_grows_id(later, before, own);
    lemma_ids_at_grows(later, before, elements);
    assert(ids_at(before, elements) =~= element_ids(before, list));
    assert(ids_at(later, elements) =~= element_ids(later, list));
    match shown_text(node) {
        Some(text) => {
            let (shown, wraps) = (capped(text), node.wraps@);
            lemma_ids_at_grows(later, b.owners, runs);
            lemma_with_owners_idle(later, runs);
            assert forall|i: int| 0 <= i < runs.len() implies id_of(
                later,
                #[trigger] runs[i],
            ) == id_of(b.owners, runs[i]) by {
                assert(ids_at(later, runs)[i] == ids_at(b.owners, runs)[i]);
            }
            assert forall|i: int| 0 <= i < runs.len() implies #[trigger] runs_of(
                shown,
                wraps,
                id,
                later,
            )[i] == runs_of(shown, wraps, id, b.owners)[i] by {
                assert(runs[i] == Owner::Run { parent: id, index: i as usize });
            }
            assert(runs_of(shown, wraps, id, later) =~= runs_of(shown, wraps, id, b.owners));
            assert forall|i: int| 0 <= i < runs.len() implies #[trigger] layout_of(
                shown,
                wraps,
                id,
                later,
            )[i] == layout_of(shown, wraps, id, b.owners)[i] by {
                assert(runs[i] == Owner::Run { parent: id, index: i as usize });
            }
            assert(layout_of(shown, wraps, id, later) =~= layout_of(shown, wraps, id, b.owners));
        },
        None => {},
    }
}

/// Nodes built once are built the same in any later table, which they leave as it
/// is.
proof fn lemma_emission_again(
    start: Emission,
    nodes: Seq<AxNode>,
    lists: Seq<Seq<ElementKey>>,
    walked: Set<ElementKey>,
    later: Seq<Owner>,
)
    requires
        start.owners.no_duplicates(),
        have_ids(start.owners, walked),
        nodes.len() == lists.len(),
        forall|i: int| 0 <= i < nodes.len() ==> walked.contains((#[trigger] nodes[i]).key),
        forall|i: int, a: int|
            0 <= i < lists.len() && 0 <= a < lists[i].len() ==> walked.contains(
                #[trigger] lists[i][a],
            ),
        grows(later, emit_all(start, nodes, lists).owners),
    ensures
        emit_all((Emission { owners: later, ..start }), nodes, lists) == (Emission {
            owners: later,
            ..emit_all(start, nodes, lists)
        }),
    decreases nodes.len(),
{
    if nodes.len() > 0 {
        let init = nodes.drop_last();
        let first = lists.drop_last();
        let (node, list) = (nodes.last(), lists.last());
        assert forall|i: int| 0 <= i < init.len() implies walked.contains(
            (#[trigger] init[i]).key,
        ) by {
            assert(nodes[i] == init[i]);
        }
        assert forall|i: int, a: int|
            0 <= i < first.len() && 0 <= a < first[i].len() implies walked.contains(
            #[trigger] first[i][a],
        ) by {
            assert(lists[i][a] == first[i][a]);
        }
        lemma_emission_grows(start, init, first, walked);
        let before = emit_all(start, init, first);
        assert(walked.contains(nodes[nodes.len() - 1].key));
        assert forall|i: int| 0 <= i < element_owners(list).len() implies before.owners.contains(
            #[trigger] element_owners(list)[i],
        ) by {
            assert(lists[lists.len() - 1][i] == list[i]);
            assert(walked.contains(list[i]));
        }
        lemma_built_owners(node, list, before.owners, later);
        lemma_built_again(node, list, before.owners, later);
        lemma_grows_transitive(before.owners, built(node, list, before.owners).owners, later);
        lemma_grows_id(later, before.owners, Owner::Element(node.key));
        lemma_emission_again(start, init, first, walked, later);
    }
}

/// A window that has been built gives the same update whenever the same walk is
/// built again, however many ids were given to others meanwhile, and no id is
/// given for it then.
pub proof fn law_later_ids_change_no_update(
    nodes: Seq<AxNode>,
    owners: Seq<Owner>,
    later: Seq<Owner>,
)
    requires
        owners.no_duplicates(),
        nodes.len() > 0,
        grows(later, window_emission(nodes, owners).owners),
    ensures
        window_emission(nodes, later).owners == later,
        window_update(nodes, later) == window_update(nodes, owners),
{
    let keys = keys_of(nodes);
    let walked = keys.to_set();
    let lists = shown_lists(nodes, walked);
    let all = element_owners(keys);
    let given = with_owners(owners, all);
    let root = Owner::Element(keys[0]);
    let start = Emission { owners: given, out: Seq::empty(), focus: id_of(given, root) };
    let after = window_emission(nodes, owners);
    lemma_shown_len(nodes, walked);
    lemma_with_owners_grows(owners, all);
    lemma_walked_have_ids(nodes, owners);
    assert forall|i: int| 0 <= i < nodes.len() implies walked.contains((#[trigger] nodes[i]).key) by {
        assert(keys[i] == nodes[i].key);
    }
    assert forall|i: int, a: int|
        0 <= i < lists.len() && 0 <= a < lists[i].len() implies walked.contains(
        #[trigger] lists[i][a],
    ) by {
        lemma_lists_walked(nodes, walked, i, a);
    }
    lemma_emission_grows(start, nodes, lists, walked);
    lemma_grows_transitive(given, after.owners, later);
    lemma_ids_at_grows(later, given, all);
    lemma_with_owners_idle(later, all);
    assert(all[0] == root);
    lemma_grows_id(later, given, root);
    lemma_emission_again(start, nodes, lists, walked, later);
}

/// Building the same walk again gives the same update and no new id.
pub proof fn law_the_same_walk_builds_the_same_update(nodes: Seq<AxNode>, owners: Seq<Owner>)
    requires
        owners.no_duplicates(),
        nodes.len() > 0,
    ensures
        ({
            let after = window_emission(nodes, owners).owners;
            &&& window_emission(nodes, after).owners == after
            &&& window_update(nodes, after) == window_update(nodes, owners)
        }),
{
    let after = window_emission(nodes, owners).owners;
    lemma_window_owners(nodes, owners);
    assert(after.take(after.len() as int) =~= after);
    law_later_ids_change_no_update(nodes, owners, after);
}

// ---------------------------------------------------------------- what is emitted of each element

/// Where in an emission one node's part begins, and the owners there were when it was
/// built.
proof fn lemma_part_emitted(
    start: Emission,
    nodes: Seq<AxNode>,
    lists: Seq<Seq<ElementKey>>,
    walked: Set<ElementKey>,
    k: int,
) -> (part: (int, Seq<Owner>))
    requires
        0 <= k < nodes.len(),
        nodes.len() == lists.len(),
        start.owners.no_duplicates(),
        have_ids(start.owners, walked),
        forall|i: int| 0 <= i < nodes.len() ==> walked.contains((#[trigger] nodes[i]).key),
    ensures
        ({
            let after = emit_all(start, nodes, lists);
            let b = built(nodes[k], lists[k], part.1);
            &&& grows(part.1, start.owners)
            &&& have_ids(part.1, walked)
            &&& grows(b.owners, part.1)
            &&& grows(after.owners, b.owners)
            &&& 0 <= part.0
            &&& part.0 + b.out.len() <= after.out.len()
            &&& forall|i: int|
                0 <= i < b.out.len() ==> after.out[part.0 + i] == #[trigger] b.out[i]
        }),
    decreases nodes.len(),
{
    let (init, first) = (nodes.drop_last(), lists.drop_last());
    let n = nodes.len() - 1;
    assert forall|i: int| 0 <= i < init.len() implies walked.contains((#[trigger] init[i]).key) by {
        assert(nodes[i] == init[i]);
    }
    lemma_emission_grows(start, init, first, walked);
    lemma_emission_grows(start, nodes, lists, walked);
    let before = emit_all(start, init, first);
    let after = emit_all(start, nodes, lists);
    let last = built(nodes[n], lists[n], before.owners);
    assert(nodes[n] == nodes.last() && lists[n] == lists.last());
    let id = id_of(before.owners, Owner::Element(nodes[n].key));
    if shown_text(nodes[n]) is None {
        assert(before.owners.take(before.owners.len() as int) =~= before.owners);
    } else {
        lemma_with_owners_grows(before.owners, runs_under(nodes[n], id));
    }
    if k < n {
        let part = lemma_part_emitted(start, init, first, walked, k);
        let b = built(init[k], first[k], part.1);
        assert(init[k] == nodes[k] && first[k] == lists[k]);
        lemma_grows_transitive(b.owners, before.owners, after.owners);
        assert forall|i: int| 0 <= i < b.out.len() implies after.out[part.0 + i]
            == #[trigger] b.out[i] by {
            assert(before.out[part.0 + i] == b.out[i]);
        }
        part
    } else {
        assert(after.owners.take(after.owners.len() as int) =~= after.owners);
        assert(after.owners == last.owners);
        (before.out.len() as int, before.owners)
    }
}

/// Every walked element is emitted as it was read: what it says is what the element says,
/// its children are those it is shown with, in their order, and behind them its runs. Its
/// selection is that of its selected range, where it is shown as text.
pub proof fn law_each_element_is_emitted_as_it_was_read(
    nodes: Seq<AxNode>,
    owners: Seq<Owner>,
    k: int,
)
    requires
        owners.no_duplicates(),
        0 <= k < nodes.len(),
    ensures
        ({
            let after = window_emission(nodes, owners);
            let (node, own) = (nodes[k], container_of(nodes[k]));
            let id = id_of(after.owners, Owner::Element(node.key));
            let list = shown_lists(nodes, keys_of(nodes).to_set())[k];
            let runs = match shown_text(node) {
                Some(text) => spans_of(capped(text), node.wraps@).len(),
                None => 0,
            };
            exists|p: int|
                {
                    let (at, emitted) = #[trigger] after.out[p];
                    &&& 0 <= p < after.out.len()
                    &&& at == id
                    &&& emitted == (NodeView {
                        props: Properties {
                            text_selection: emitted.props.text_selection,
                            ..own.props
                        },
                        children: emitted.children,
                        ..own
                    })
                    &&& emitted.children.len() == list.len() + runs
                    &&& forall|i: int|
                        0 <= i < list.len() ==> #[trigger] emitted.children[i] == id_of(
                            after.owners,
                            Owner::Element(list[i]),
                        )
                    &&& forall|i: int|
                        list.len() <= i < list.len() + runs ==> #[trigger] emitted.children[i]
                            == id_of(
                            after.owners,
                            Owner::Run { parent: id, index: (i - list.len()) as usize },
                        )
                    &&& shown_text(node) is None || node.selected_range is None
                        ==> emitted.props.text_selection is None
                    &&& shown_text(node) matches Some(text) ==> (node.selected_range matches Some(
                        range,
                    ) ==> emitted.props.text_selection == selection_at(
                        text,
                        layout_of(capped(text), node.wraps@, id, after.owners),
                        range.0 as int,
                        range.1 as int,
                    ))
                }
        }),
{
    let after = window_emission(nodes, owners);
    let (node, key) = (nodes[k], Owner::Element(nodes[k].key));
    let walked = keys_of(nodes).to_set();
    let lists = shown_lists(nodes, walked);
    let part = lemma_window_part(nodes, owners, k);
    let b = built(node, lists[k], part.1);
    lemma_grows_transitive(part.1, b.owners, after.owners);
    lemma_grows_id(after.owners, part.1, key);
    let id = id_of(after.owners, key);
    let p = part.0 + b.out.len() - 1;
    let emitted = b.out.last().1;
    assert(b.out[b.out.len() - 1] == after.out[p]);
    assert forall|i: int| 0 <= i < lists[k].len() implies #[trigger] emitted.children[i] == id_of(
        after.owners,
        Owner::Element(lists[k][i]),
    ) by {
        lemma_lists_walked(nodes, walked, k, i);
        lemma_grows_id(after.owners, part.1, Owner::Element(lists[k][i]));
    }
    match shown_text(node) {
        Some(text) => {
            let shown = capped(text);
            let owned = run_owners(id, spans_of(shown, node.wraps@).len());
            lemma_with_owners_grows(part.1, owned);
            assert forall|i: int| 0 <= i < owned.len() implies id_of(
                b.owners,
                #[trigger] owned[i],
            ) == id_of(after.owners, owned[i]) by {
                lemma_grows_id(after.owners, b.owners, owned[i]);
            }
            let runs = runs_of(shown, node.wraps@, id, b.owners);
            let list = lists[k];
            assert forall|i: int| list.len() <= i < list.len() + owned.len() implies
                #[trigger] emitted.children[i] == id_of(
                after.owners,
                Owner::Run { parent: id, index: (i - list.len()) as usize },
            ) by {
                assert(node_ids(runs)[i - list.len()] == runs[i - list.len()].0);
                assert(owned[i - list.len()] == (Owner::Run {
                    parent: id,
                    index: (i - list.len()) as usize,
                }));
            }
            let (here, there) = (
                layout_of(shown, node.wraps@, id, b.owners),
                layout_of(shown, node.wraps@, id, after.owners),
            );
            assert forall|i: int| 0 <= i < here.len() implies #[trigger] here[i] == there[i] by {
                assert(owned[i] == (Owner::Run { parent: id, index: i as usize }));
            }
            assert(here =~= there);
        },
        None => {},
    }
    assert(after.out[p] == (id, emitted));
}

/// Every line of every text is emitted as a run under its node.
pub proof fn law_every_run_is_emitted(nodes: Seq<AxNode>, owners: Seq<Owner>, k: int, i: int)
    requires
        owners.no_duplicates(),
        0 <= k < nodes.len(),
        shown_text(nodes[k]) is Some,
        0 <= i < spans_of(capped(shown_text(nodes[k])->0), nodes[k].wraps@).len(),
    ensures
        ({
            let after = window_emission(nodes, owners);
            let text = capped(shown_text(nodes[k])->0);
            let parent = id_of(after.owners, Owner::Element(nodes[k].key));
            let line = spans_of(text, nodes[k].wraps@)[i];
            after.out.contains(
                (
                    id_of(after.owners, Owner::Run { parent, index: i as usize }),
                    run_node(text.subrange(line.0 as int, line.0 + line.1)),
                ),
            )
        }),
{
    let after = window_emission(nodes, owners);
    let (node, key) = (nodes[k], Owner::Element(nodes[k].key));
    let lists = shown_lists(nodes, keys_of(nodes).to_set());
    let part = lemma_window_part(nodes, owners, k);
    let b = built(node, lists[k], part.1);
    lemma_grows_transitive(part.1, b.owners, after.owners);
    lemma_grows_id(after.owners, part.1, key);
    let id = id_of(after.owners, key);
    let text = capped(shown_text(node)->0);
    let owned = run_owners(id, spans_of(text, node.wraps@).len());
    lemma_with_owners_grows(part.1, owned);
    assert(owned[i] == (Owner::Run { parent: id, index: i as usize }));
    lemma_grows_id(after.owners, b.owners, owned[i]);
    let runs = runs_of(text, node.wraps@, id, b.owners);
    assert(b.out[i] == runs[i]);
    assert(after.out[part.0 + i] == runs[i]);
}

proof fn lemma_window_part(nodes: Seq<AxNode>, owners: Seq<Owner>, k: int) -> (part: (
    int,
    Seq<Owner>,
))
    requires
        owners.no_duplicates(),
        0 <= k < nodes.len(),
    ensures
        ({
            let after = window_emission(nodes, owners);
            let walked = keys_of(nodes).to_set();
            let lists = shown_lists(nodes, walked);
            let b = built(nodes[k], lists[k], part.1);
            &&& lists.len() == nodes.len()
            &&& part.1.contains(Owner::Element(nodes[k].key))
            &&& part.1.no_duplicates()
            &&& have_ids(part.1, walked)
            &&& grows(b.owners, part.1)
            &&& grows(after.owners, b.owners)
            &&& 0 <= part.0
            &&& part.0 + b.out.len() <= after.out.len()
            &&& forall|i: int|
                0 <= i < b.out.len() ==> after.out[part.0 + i] == #[trigger] b.out[i]
        }),
{
    let keys = keys_of(nodes);
    let walked = keys.to_set();
    let given = with_owners(owners, element_owners(keys));
    let start = Emission {
        owners: given,
        out: Seq::empty(),
        focus: id_of(given, Owner::Element(keys[0])),
    };
    lemma_shown_len(nodes, walked);
    lemma_with_owners(owners, element_owners(keys));
    lemma_walked_have_ids(nodes, owners);
    assert forall|i: int| 0 <= i < nodes.len() implies walked.contains((#[trigger] nodes[i]).key) by {
        assert(keys[i] == nodes[i].key);
    }
    lemma_part_emitted(start, nodes, shown_lists(nodes, walked), walked, k)
}

/// Focus is on the element that reports it, the last one if several do; without one it is
/// on the root.
pub proof fn law_focus_is_on_the_focused_element(nodes: Seq<AxNode>, owners: Seq<Owner>, k: int)
    requires
        owners.no_duplicates(),
        0 <= k < nodes.len(),
    ensures
        ({
            let after = window_emission(nodes, owners);
            let update = window_update(nodes, owners);
            let root = id_of(after.owners, Owner::Element(nodes[0].key));
            &&& update.nodes == after.out
            &&& update.tree matches Some(tree) && tree.root == root
            &&& nodes[k].states.focused && (forall|j: int|
                k < j < nodes.len() ==> !(#[trigger] nodes[j]).states.focused) ==> update.focus
                == id_of(after.owners, Owner::Element(nodes[k].key))
            &&& (forall|j: int| 0 <= j < nodes.len() ==> !(#[trigger] nodes[j]).states.focused)
                ==> update.focus == root
        }),
{
    let keys = keys_of(nodes);
    let walked = keys.to_set();
    let given = with_owners(owners, element_owners(keys));
    let start = Emission {
        owners: given,
        out: Seq::empty(),
        focus: id_of(given, Owner::Element(keys[0])),
    };
    lemma_shown_len(nodes, walked);
    lemma_with_owners(owners, element_owners(keys));
    lemma_walked_have_ids(nodes, owners);
    assert forall|i: int| 0 <= i < nodes.len() implies walked.contains((#[trigger] nodes[i]).key) by {
        assert(keys[i] == nodes[i].key);
    }
    lemma_emission_grows(start, nodes, shown_lists(nodes, walked), walked);
    let after = window_emission(nodes, owners);
    assert(walked.contains(nodes[0].key));
    lemma_grows_id(after.owners, given, Owner::Element(nodes[0].key));
    lemma_grows_id(after.owners, given, Owner::Element(nodes[k].key));
    assert(keys[0] == nodes[0].key);
    lemma_focused(start, nodes, shown_lists(nodes, walked), walked, k);
}

proof fn lemma_focused(
    start: Emission,
    nodes: Seq<AxNode>,
    lists: Seq<Seq<ElementKey>>,
    walked: Set<ElementKey>,
    k: int,
)
    requires
        nodes.len() == lists.len(),
        start.owners.no_duplicates(),
        have_ids(start.owners, walked),
        forall|i: int| 0 <= i < nodes.len() ==> walked.contains((#[trigger] nodes[i]).key),
    ensures
        0 <= k < nodes.len() && nodes[k].states.focused && (forall|j: int|
            k < j < nodes.len() ==> !(#[trigger] nodes[j]).states.focused) ==> emit_all(
            start,
            nodes,
            lists,
        ).focus == id_of(start.owners, Owner::Element(nodes[k].key)),
        (forall|j: int| 0 <= j < nodes.len() ==> !(#[trigger] nodes[j]).states.focused)
            ==> emit_all(start, nodes, lists).focus == start.focus,
    decreases nodes.len(),
{
    if nodes.len() > 0 {
        let (init, first) = (nodes.drop_last(), lists.drop_last());
        let n = nodes.len() - 1;
        assert forall|i: int| 0 <= i < init.len() implies walked.contains(
            (#[trigger] init[i]).key,
        ) by {
            assert(nodes[i] == init[i]);
        }
        lemma_focused(start, init, first, walked, k);
        lemma_emission_grows(start, init, first, walked);
        assert(walked.contains(nodes[n].key));
        lemma_grows_id(
            emit_all(start, init, first).owners,
            start.owners,
            Owner::Element(nodes[n].key),
        );
        assert forall|j: int| 0 <= j < init.len() implies #[trigger] init[j] == nodes[j] by {}
        assert(nodes[n] == nodes.last());
    }
}

} // verus!
