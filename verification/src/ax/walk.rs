//! Walking one window into an update.
//!
//! Breadth-first from the window element, bounded in node count, tolerant of
//! elements that vanish during the walk.

use crate::atspi::text::capped;
use crate::ax::attr::as_string;
use crate::ax::attr::text_in;
use crate::ax::attr::AxValue;
use crate::ax::element::id_of;
use crate::ax::element::lemma_with_owners;
use crate::ax::element::with_owners;
use crate::ax::element::ChildMap;
use crate::ax::element::ElementKey;
use crate::ax::element::ElementSet;
use crate::ax::element::NodeIdMap;
use crate::ax::element::Owner;
use crate::ax::node::build_container;
use crate::ax::node::carries_text;
use crate::ax::node::container_of;
use crate::ax::node::has_text_runs;
use crate::ax::node::role_of;
use crate::ax::node::AxNode;
use crate::ax::text::build_runs;
use crate::ax::text::layout_of;
use crate::ax::text::run_owners;
use crate::ax::text::runs_of;
use crate::ax::text::selection;
use crate::ax::text::selection_at;
use crate::ax::text::spans_of;
use crate::ax::text::RunLayout;
use crate::search::first_match;
use crate::strings::same;
use crate::tree::ids_of;
use crate::tree::lemma_node_views_concat;
use crate::tree::lemma_node_views_push;
use crate::tree::node_ids;
use crate::tree::node_views;
use crate::tree::Node;
use crate::tree::NodeId;
use crate::tree::NodeView;
use crate::tree::Properties;
use crate::tree::TextSelection;
use crate::tree::Tree;
use crate::tree::TreeUpdate;
use crate::tree::TreeUpdateView;
use vstd::prelude::*;

verus! {

/// The most nodes one window contributes: a backstop against a pathological
/// application.
pub const MAX_NODES_PER_WINDOW: usize = 5000;

/// The keys of walked elements.
pub open spec fn keys_of(nodes: Seq<AxNode>) -> Seq<ElementKey> {
    nodes.map_values(|n: AxNode| n.key)
}

// ---------------------------------------------------------------- the walk

/// A breadth-first walk of a window.
pub struct WindowWalk {
    queue: Vec<ElementKey>,
    head: usize,
    seen: ElementSet,
    nodes: Vec<AxNode>,
}

/// The state of a walk: what is still to be read, what has been asked for, and
/// what has been read.
#[verifier::ext_equal]
pub struct WalkView {
    pub queue: Seq<ElementKey>,
    pub seen: Set<ElementKey>,
    pub nodes: Seq<AxNode>,
}

impl View for WindowWalk {
    type V = WalkView;

    closed spec fn view(&self) -> WalkView {
        WalkView {
            queue: self.queue@.skip(self.head as int),
            seen: self.seen@,
            nodes: self.nodes@,
        }
    }
}

/// Where in a queue the next element to read is: the first not asked for yet.
pub open spec fn next_unseen(queue: Seq<ElementKey>, seen: Set<ElementKey>) -> Option<int>
    decreases queue.len(),
{
    if queue.len() == 0 {
        None
    } else if !seen.contains(queue[0]) {
        Some(0)
    } else {
        match next_unseen(queue.drop_first(), seen) {
            Some(i) => Some(i + 1),
            None => None,
        }
    }
}

/// Whether an element that was read is part of the window: the application itself
/// never is, for that would be a cycle back to the root of everything.
pub open spec fn belongs(nodes: Seq<AxNode>, node: AxNode) -> bool {
    nodes.len() == 0 || node.role@ != "AXApplication"@
}

/// Whether no element was read twice.
pub open spec fn distinct_keys(nodes: Seq<AxNode>) -> bool {
    keys_of(nodes).no_duplicates()
}

/// Whether one of the first `n` nodes lists an element as its child.
pub open spec fn listed(nodes: Seq<AxNode>, key: ElementKey, n: int) -> bool {
    exists|j: int| 0 <= j < n && (#[trigger] nodes[j]).children@.contains(key)
}

/// Whether every element but the root was read because one before it lists it.
pub open spec fn discovered(nodes: Seq<AxNode>) -> bool {
    forall|k: int| 0 < k < nodes.len() ==> listed(nodes, (#[trigger] nodes[k]).key, k)
}

/// Whether an element is the root of a walk or listed by a node of it.
pub open spec fn heard_of(nodes: Seq<AxNode>, root: ElementKey, key: ElementKey) -> bool {
    if nodes.len() == 0 {
        key == root
    } else {
        key == nodes[0].key || listed(nodes, key, nodes.len() as int)
    }
}

proof fn lemma_heard_of(nodes: Seq<AxNode>, root: ElementKey, node: AxNode, key: ElementKey)
    requires
        heard_of(nodes, root, key),
        nodes.len() == 0 ==> node.key == root,
    ensures
        heard_of(nodes.push(node), root, key),
{
    let more = nodes.push(node);
    if nodes.len() > 0 && key != nodes[0].key {
        let j = choose|j: int|
            0 <= j < nodes.len() && (#[trigger] nodes[j]).children@.contains(key);
        assert(more[j].children@.contains(key));
    }
}

impl WindowWalk {
    /// Each element has been read once, because an earlier one lists it, and no more
    /// than the cap.
    pub closed spec fn wf(&self) -> bool {
        &&& self.queue@.len() > 0
        &&& forall|i: int|
            0 <= i < self.queue@.len() ==> heard_of(
                self.nodes@,
                self.queue@[0],
                #[trigger] self.queue@[i],
            )
        &&& forall|key: ElementKey| #[trigger]
            self.seen@.contains(key) ==> heard_of(self.nodes@, self.queue@[0], key)
        &&& discovered(self.nodes@)
        &&& self.head <= self.queue@.len()
        &&& self.nodes@.len() <= MAX_NODES_PER_WINDOW
        &&& distinct_keys(self.nodes@)
        &&& forall|i: int|
            0 <= i < self.nodes@.len() ==> self.seen@.contains((#[trigger] self.nodes@[i]).key)
        &&& forall|i: int|
            0 < i < self.nodes@.len() ==> (#[trigger] self.nodes@[i]).role@ != "AXApplication"@
    }

    /// A walk reads no element twice, and none but the root that no element before it
    /// lists, and no more than the cap, and finds no application within a window.
    pub proof fn law_walk_reads_each_element_once(&self)
        requires
            self.wf(),
        ensures
            distinct_keys(self@.nodes),
            discovered(self@.nodes),
            self@.nodes.len() <= MAX_NODES_PER_WINDOW,
            self@.nodes.len() <= 5000,
            forall|i: int|
                0 < i < self@.nodes.len() ==> (#[trigger] self@.nodes[i]).role@
                    != "AXApplication"@,
    {
    }

    /// A walk from the window's root.
    pub fn new(root: ElementKey) -> (walk: Self)
        ensures
            walk.wf(),
            walk@ == (WalkView {
                queue: seq![root],
                seen: Set::empty(),
                nodes: Seq::empty(),
            }),
    {
        let mut queue: Vec<ElementKey> = Vec::new();
        queue.push(root);
        let walk = WindowWalk { queue, head: 0, seen: ElementSet::new(), nodes: Vec::new() };
        assert(walk@.queue =~= seq![root]);
        walk
    }

    /// The next element to read, taken off the queue with all before it: the first
    /// not asked for yet. `None` when none is left or the cap is reached.
    pub fn next(&mut self) -> (next: Option<ElementKey>)
        requires
            old(self).wf(),
        ensures
            final(self).wf(),
            final(self)@.nodes == old(self)@.nodes,
            ({
                let unseen = next_unseen(old(self)@.queue, old(self)@.seen);
                let more = unseen is Some && old(self)@.nodes.len() < MAX_NODES_PER_WINDOW;
                &&& next is Some <==> more
                &&& next matches Some(key) ==> {
                    &&& key == old(self)@.queue[unseen->0]
                    &&& final(self)@.queue == old(self)@.queue.skip(unseen->0 + 1)
                    &&& final(self)@.seen == old(self)@.seen.insert(key)
                    &&& !keys_of(old(self)@.nodes).contains(key)
                }
                &&& next is None ==> final(self)@.seen == old(self)@.seen
            }),
    {
        if self.nodes.len() >= MAX_NODES_PER_WINDOW {
            return None;
        }
        let ghost first = self@.queue;
        let ghost start = self.head as int;
        let ghost seen = self.seen@;
        assert(first.skip(0) =~= first);
        while self.head < self.queue.len()
            invariant
                0 <= start <= self.head <= self.queue@.len(),
                self.queue@ == old(self).queue@,
                self.nodes@ == old(self).nodes@,
                self.seen@ == seen,
                seen == old(self).seen@,
                self.wf(),
                self.nodes@.len() < MAX_NODES_PER_WINDOW,
                first == self.queue@.skip(start),
                first == old(self)@.queue,
                next_unseen(first, seen) == (match next_unseen(
                    first.skip(self.head - start),
                    seen,
                ) {
                    Some(i) => Some(i + (self.head - start)),
                    None => None,
                }),
            decreases self.queue.len() - self.head,
        {
            let ghost k = self.head - start;
            let ghost rest = first.skip(k);
            assert(rest[0] == self.queue@[self.head as int]);
            assert(rest.drop_first() =~= first.skip(k + 1));
            let key: ElementKey = self.queue[self.head];
            self.head = self.head + 1;
            if self.seen.insert(key) {
                proof {
                    assert(next_unseen(rest, seen) == Some(0int));
                    assert(self@.queue =~= first.skip(k + 1));
                    if keys_of(self.nodes@).contains(key) {
                        let i = keys_of(self.nodes@).index_of(key);
                        assert(seen.contains(self.nodes@[i].key));
                    }
                }
                return Some(key);
            }
            assert(self.seen@ =~= seen);
        }
        assert(first.skip(self.head - start).len() == 0);
        None
    }

    /// Records the element just read, and queues its children, if it is part of
    /// the window. An element that could not be read is simply not recorded.
    pub fn accept(&mut self, node: AxNode)
        requires
            old(self).wf(),
            old(self)@.nodes.len() < MAX_NODES_PER_WINDOW,
            old(self)@.seen.contains(node.key),
            !keys_of(old(self)@.nodes).contains(node.key),
        ensures
            final(self).wf(),
            final(self)@ == (if belongs(old(self)@.nodes, node) {
                WalkView {
                    queue: old(self)@.queue + node.children@,
                    nodes: old(self)@.nodes.push(node),
                    ..old(self)@
                }
            } else {
                old(self)@
            }),
    {
        if self.nodes.len() > 0 && same(node.role.as_str(), "AXApplication") {
            return;
        }
        let ghost (queue, nodes) = (self.queue@, self.nodes@);
        self.queue.extend_from_slice(node.children.as_slice());
        self.nodes.push(node);
        proof {
            let root = queue[0];
            assert(heard_of(nodes, root, node.key));
            assert(self.queue@[0] == root);
            assert forall|i: int| 0 <= i < self.queue@.len() implies heard_of(
                self.nodes@,
                root,
                #[trigger] self.queue@[i],
            ) by {
                if i < queue.len() {
                    assert(self.queue@[i] == queue[i]);
                    lemma_heard_of(nodes, root, node, queue[i]);
                } else {
                    assert(node.children@[i - queue.len()] == self.queue@[i]);
                    assert(self.nodes@[nodes.len() as int].children@.contains(self.queue@[i]));
                }
            }
            assert forall|key: ElementKey| #[trigger] self.seen@.contains(key) implies heard_of(
                self.nodes@,
                root,
                key,
            ) by {
                lemma_heard_of(nodes, root, node, key);
            }
            assert forall|k: int| 0 < k < self.nodes@.len() implies listed(
                self.nodes@,
                (#[trigger] self.nodes@[k]).key,
                k,
            ) by {
                if k < nodes.len() {
                    assert(listed(nodes, nodes[k].key, k));
                    let j = choose|j: int|
                        0 <= j < k && (#[trigger] nodes[j]).children@.contains(nodes[k].key);
                    assert(self.nodes@[j].children@.contains(self.nodes@[k].key));
                } else {
                    if node.key == nodes[0].key {
                        assert(keys_of(nodes)[0] == node.key);
                    }
                    let j = choose|j: int|
                        0 <= j < nodes.len() && (#[trigger] nodes[j]).children@.contains(node.key);
                    assert(self.nodes@[j].children@.contains(self.nodes@[k].key));
                }
            }
            assert(self.queue@ =~= queue + node.children@);
            assert(self@.queue =~= queue.skip(self.head as int) + node.children@);
            let (before, after) = (keys_of(nodes), keys_of(self.nodes@));
            assert(after =~= before.push(node.key));
            assert forall|i: int, j: int| 0 <= i < j < after.len() implies after[i]
                != after[j] by {
                if j == before.len() {
                    assert(before.contains(before[i]));
                }
            }
            assert forall|i: int| 0 <= i < self.nodes@.len() implies self.seen@.contains(
                (#[trigger] self.nodes@[i]).key,
            ) by {
                if i < nodes.len() {
                    assert(self.nodes@[i] == nodes[i]);
                }
            }
            assert forall|i: int| 0 < i < self.nodes@.len() implies (
            #[trigger] self.nodes@[i]).role@ != "AXApplication"@ by {
                if i < nodes.len() {
                    assert(self.nodes@[i] == nodes[i]);
                }
            }
        }
    }

    /// What was walked, the root first.
    pub fn finish(self) -> (nodes: Vec<AxNode>)
        requires
            self.wf(),
        ensures
            nodes@ == self@.nodes,
            distinct_keys(nodes@),
            discovered(nodes@),
    {
        self.nodes
    }
}

// ---------------------------------------------------------------- structure

/// Those of a node's children that it is shown with: walked, and not taken by a
/// node before it or listed before.
pub open spec fn claimed_children(
    children: Seq<ElementKey>,
    walked: Set<ElementKey>,
    claimed: Set<ElementKey>,
) -> Seq<ElementKey>
    decreases children.len(),
{
    if children.len() == 0 {
        Seq::empty()
    } else {
        let before = claimed_children(children.drop_last(), walked, claimed);
        let child = children.last();
        if walked.contains(child) && !claimed.contains(child) && !before.contains(child) {
            before.push(child)
        } else {
            before
        }
    }
}

/// The children that each node is shown with. A tree must be strict: the first
/// node in walk order that lists a child keeps it. An element may be listed under
/// several parents, or twice under one, and a consumer does not tolerate either.
pub open spec fn shown_lists(nodes: Seq<AxNode>, walked: Set<ElementKey>) -> Seq<Seq<ElementKey>>
    decreases nodes.len(),
{
    if nodes.len() == 0 {
        Seq::empty()
    } else {
        let before = shown_lists(nodes.drop_last(), walked);
        before.push(
            claimed_children(nodes.last().children@, walked, taken(before)),
        )
    }
}

/// Every element in some list.
pub open spec fn taken(lists: Seq<Seq<ElementKey>>) -> Set<ElementKey>
    decreases lists.len(),
{
    if lists.len() == 0 {
        Set::empty()
    } else {
        taken(lists.drop_last()).union(lists.last().to_set())
    }
}

pub proof fn lemma_claimed(
    children: Seq<ElementKey>,
    walked: Set<ElementKey>,
    claimed: Set<ElementKey>,
)
    ensures
        claimed_children(children, walked, claimed).no_duplicates(),
        forall|k: ElementKey| #[trigger]
            claimed_children(children, walked, claimed).contains(k) <==> walked.contains(k)
                && !claimed.contains(k) && children.contains(k),
    decreases children.len(),
{
    let all = claimed_children(children, walked, claimed);
    if children.len() > 0 {
        let init = children.drop_last();
        lemma_claimed(init, walked, claimed);
        let before = claimed_children(init, walked, claimed);
        assert forall|i: int, j: int| 0 <= i < j < all.len() implies all[i] != all[j] by {
            if j == before.len() {
                assert(before.contains(before[i]));
            }
        }
        assert forall|k: ElementKey| #[trigger] all.contains(k) <==> walked.contains(k)
            && !claimed.contains(k) && children.contains(k) by {
            if all.contains(k) {
                let j = all.index_of(k);
                if j < before.len() {
                    assert(before[j] == k);
                    assert(before.contains(k));
                    let i = init.index_of(k);
                    assert(children[i] == k);
                } else {
                    assert(children[children.len() - 1] == k);
                }
            }
            if before.contains(k) {
                let j = before.index_of(k);
                assert(all[j] == k);
            }
            if walked.contains(k) && !claimed.contains(k) && children.contains(k) {
                let i = children.index_of(k);
                if i < init.len() {
                    assert(init[i] == k);
                } else if !before.contains(k) {
                    assert(all[before.len() as int] == k);
                }
            }
        }
    }
}

/// Every child is shown under one parent only, and once: no two places among all
/// the lists hold the same element. And only walked elements are shown.
pub proof fn law_each_child_has_one_parent(
    nodes: Seq<AxNode>,
    walked: Set<ElementKey>,
    i: int,
    a: int,
    j: int,
    b: int,
)
    requires
        0 <= i < nodes.len(),
        0 <= j < nodes.len(),
        0 <= a < shown_lists(nodes, walked)[i].len(),
        0 <= b < shown_lists(nodes, walked)[j].len(),
        shown_lists(nodes, walked)[i][a] == shown_lists(nodes, walked)[j][b],
    ensures
        i == j,
        a == b,
        walked.contains(shown_lists(nodes, walked)[i][a]),
    decreases nodes.len(),
{
    let lists = shown_lists(nodes, walked);
    lemma_shown_len(nodes, walked);
    let init = nodes.drop_last();
    lemma_shown_len(init, walked);
    let before = shown_lists(init, walked);
    let n = nodes.len() - 1;
    let last = claimed_children(nodes.last().children@, walked, taken(before));
    lemma_claimed(nodes.last().children@, walked, taken(before));
    let child = lists[i][a];
    if i < n && j < n {
        assert(lists[i] == before[i] && lists[j] == before[j]);
        law_each_child_has_one_parent(init, walked, i, a, j, b);
    } else if i == n && j == n {
        assert(last.contains(last[a]));
    } else if i < n {
        assert(lists[i] == before[i]);
        lemma_taken(before, i, a);
        assert(last.contains(last[b]));
    } else {
        assert(lists[j] == before[j]);
        lemma_taken(before, j, b);
        assert(last.contains(last[a]));
    }
}

pub proof fn lemma_shown_len(nodes: Seq<AxNode>, walked: Set<ElementKey>)
    ensures
        shown_lists(nodes, walked).len() == nodes.len(),
    decreases nodes.len(),
{
    if nodes.len() > 0 {
        lemma_shown_len(nodes.drop_last(), walked);
    }
}

proof fn lemma_taken(lists: Seq<Seq<ElementKey>>, i: int, a: int)
    requires
        0 <= i < lists.len(),
        0 <= a < lists[i].len(),
    ensures
        taken(lists).contains(lists[i][a]),
    decreases lists.len(),
{
    if i < lists.len() - 1 {
        lemma_taken(lists.drop_last(), i, a);
    } else {
        assert(lists.last().contains(lists.last()[a]));
    }
}

/// Takes the children a node is shown with, and adds them to those taken; see
/// [`claimed_children`].
fn claim(children: &[ElementKey], walked: &ElementSet, claimed: &mut ElementSet) -> (list: Vec<
    ElementKey,
>)
    ensures
        list@ == claimed_children(children@, walked@, old(claimed)@),
        final(claimed)@ == old(claimed)@.union(list@.to_set()),
{
    let mut list: Vec<ElementKey> = Vec::new();
    let ghost first = claimed@;
    assert(first.union(list@.to_set()) =~= first);
    for i in 0..children.len()
        invariant
            list@ == claimed_children(children@.take(i as int), walked@, first),
            claimed@ == first.union(list@.to_set()),
    {
        assert(children@.take(i + 1).drop_last() =~= children@.take(i as int));
        let child: ElementKey = children[i];
        let ghost before = list@;
        if walked.contains(child) && claimed.insert(child) {
            list.push(child);
            proof {
                lemma_push_to_set(before, child);
                assert(claimed@ =~= first.union(list@.to_set()));
            }
        } else {
            assert(claimed@ =~= first.union(list@.to_set()));
        }
    }
    assert(children@.take(children@.len() as int) =~= children@);
    list
}

proof fn lemma_push_to_set(list: Seq<ElementKey>, key: ElementKey)
    ensures
        list.push(key).to_set() == list.to_set().insert(key),
{
    let longer = list.push(key);
    assert forall|k: ElementKey| longer.contains(k) <==> list.contains(k) || k == key by {
        if longer.contains(k) {
            let j = longer.index_of(k);
            if j < list.len() {
                assert(list[j] == k);
            }
        }
        if list.contains(k) {
            let j = list.index_of(k);
            assert(longer[j] == k);
        }
        assert(longer[list.len() as int] == key);
    }
    assert(longer.to_set() =~= list.to_set().insert(key));
}

fn walked_keys(nodes: &[AxNode]) -> (walked: ElementSet)
    ensures
        walked@ == keys_of(nodes@).to_set(),
{
    let mut keys: Vec<ElementKey> = Vec::new();
    for i in 0..nodes.len()
        invariant
            keys@ == keys_of(nodes@).take(i as int),
    {
        keys.push(nodes[i].key);
        assert(keys@ =~= keys_of(nodes@).take(i + 1));
    }
    assert(keys_of(nodes@).take(nodes@.len() as int) =~= keys_of(nodes@));
    ElementSet::of(keys.as_slice())
}

/// The children each node was shown with, by element.
pub open spec fn shown_map(nodes: Seq<AxNode>, walked: Set<ElementKey>) -> Map<
    ElementKey,
    Seq<ElementKey>,
>
    decreases nodes.len(),
{
    if nodes.len() == 0 {
        Map::empty()
    } else {
        shown_map(nodes.drop_last(), walked).insert(
            nodes.last().key,
            shown_lists(nodes, walked).last(),
        )
    }
}

/// The elements that each node was shown with, by the same rule of one parent. They
/// are the first of the children that it was emitted with, which a refresh goes by
/// instead of a fresh read, so that changing a node's semantics can never change the
/// tree's structure.
pub fn emitted_children(nodes: &[AxNode]) -> (children: ChildMap)
    ensures
        children@ == shown_map(nodes@, keys_of(nodes@).to_set()),
{
    let walked: ElementSet = walked_keys(nodes);
    let mut claimed: ElementSet = ElementSet::new();
    let mut children: ChildMap = ChildMap::new();
    for i in 0..nodes.len()
        invariant
            walked@ == keys_of(nodes@).to_set(),
            claimed@ == taken(shown_lists(nodes@.take(i as int), walked@)),
            children@ == shown_map(nodes@.take(i as int), walked@),
    {
        let ghost more = nodes@.take(i + 1);
        assert(more.drop_last() =~= nodes@.take(i as int));
        let list: Vec<ElementKey> = claim(nodes[i].children.as_slice(), &walked, &mut claimed);
        proof {
            let lists = shown_lists(more, walked@);
            assert(lists.drop_last() =~= shown_lists(nodes@.take(i as int), walked@));
            assert(lists.last() == list@);
        }
        children.insert(nodes[i].key, list);
    }
    assert(nodes@.take(nodes@.len() as int) =~= nodes@);
    children
}

// ---------------------------------------------------------------- updates

/// Elements, as owners of ids.
pub open spec fn element_owners(keys: Seq<ElementKey>) -> Seq<Owner> {
    keys.map_values(|k: ElementKey| Owner::Element(k))
}

/// The ids of elements that have one.
pub open spec fn element_ids(owners: Seq<Owner>, keys: Seq<ElementKey>) -> Seq<NodeId> {
    keys.map_values(|k: ElementKey| id_of(owners, Owner::Element(k)))
}

/// A node of a window: the ids in use after it, and what is emitted of it, its
/// runs before itself.
pub struct BuiltView {
    pub owners: Seq<Owner>,
    pub out: Seq<(NodeId, NodeView)>,
}

/// The text of a node that is shown as runs, if it is.
pub open spec fn shown_text(node: AxNode) -> Option<Seq<char>> {
    if carries_text(role_of(node)) {
        text_in(node.value)
    } else {
        None
    }
}

/// A node with its children and its selection.
pub open spec fn with_children(
    node: NodeView,
    children: Seq<NodeId>,
    selection: Option<TextSelection>,
) -> NodeView {
    NodeView {
        props: Properties { text_selection: selection, ..node.props },
        children,
        ..node
    }
}

/// The selection of a text, if it has one.
pub open spec fn selection_of(
    text: Seq<char>,
    layout: Seq<RunLayout>,
    range: Option<(usize, usize)>,
) -> Option<TextSelection> {
    match range {
        Some((start, len)) => selection_at(text, layout, start as int, len as int),
        None => None,
    }
}

/// The node that an element is built into, with the children it is shown with.
pub open spec fn built(node: AxNode, list: Seq<ElementKey>, owners: Seq<Owner>) -> BuiltView {
    let id = id_of(owners, Owner::Element(node.key));
    let children = element_ids(owners, list);
    let own = container_of(node);
    match shown_text(node) {
        Some(text) => {
            let shown = capped(text);
            let wraps = node.wraps@;
            let after = with_owners(owners, run_owners(id, spans_of(shown, wraps).len()));
            let runs = runs_of(shown, wraps, id, after);
            let layout = layout_of(shown, wraps, id, after);
            let selection = selection_of(text, layout, node.selected_range);
            BuiltView {
                owners: after,
                out: runs.push(
                    (id, with_children(own, children + node_ids(runs), selection)),
                ),
            }
        },
        None => BuiltView {
            owners,
            out: seq![(id, with_children(own, children, None))],
        },
    }
}

/// What has been built of a window.
pub struct Emission {
    pub owners: Seq<Owner>,
    pub out: Seq<(NodeId, NodeView)>,
    pub focus: NodeId,
}

/// What has been built after all of `nodes`, each with the children it is shown
/// with.
pub open spec fn emit_all(
    start: Emission,
    nodes: Seq<AxNode>,
    lists: Seq<Seq<ElementKey>>,
) -> Emission
    decreases nodes.len(),
{
    if nodes.len() == 0 {
        start
    } else {
        let before = emit_all(start, nodes.drop_last(), lists.drop_last());
        let node = nodes.last();
        let b = built(node, lists.last(), before.owners);
        Emission {
            owners: b.owners,
            out: before.out + b.out,
            focus: if node.states.focused {
                id_of(before.owners, Owner::Element(node.key))
            } else {
                before.focus
            },
        }
    }
}

/// A whole window. Every walked element has its id before the first node is
/// built, and focus starts out on the root.
pub open spec fn window_emission(nodes: Seq<AxNode>, owners: Seq<Owner>) -> Emission {
    let keys = keys_of(nodes);
    let given = with_owners(owners, element_owners(keys));
    emit_all(
        Emission {
            owners: given,
            out: Seq::empty(),
            focus: id_of(given, Owner::Element(keys[0])),
        },
        nodes,
        shown_lists(nodes, keys.to_set()),
    )
}

/// The update that carries a whole window.
pub open spec fn window_update(nodes: Seq<AxNode>, owners: Seq<Owner>) -> TreeUpdateView {
    let emission = window_emission(nodes, owners);
    let keys = keys_of(nodes);
    let root = id_of(
        with_owners(owners, element_owners(keys)),
        Owner::Element(keys[0]),
    );
    TreeUpdateView { nodes: emission.out, tree: Some(Tree { root }), focus: emission.focus }
}

/// Whether the end of a node's selected range can be counted.
pub open spec fn range_fits(node: AxNode) -> bool {
    match node.selected_range {
        Some((start, len)) => start + len <= usize::MAX,
        None => true,
    }
}

/// Whether every element of a set has an id.
pub open spec fn have_ids(owners: Seq<Owner>, keys: Set<ElementKey>) -> bool {
    forall|k: ElementKey| #[trigger] keys.contains(k) ==> owners.contains(Owner::Element(k))
}

/// The ids of the children a node is shown with.
fn child_ids(list: &[ElementKey], ids: &NodeIdMap, Ghost(walked): Ghost<Set<ElementKey>>) -> (found:
    Vec<NodeId>)
    requires
        ids.wf(),
        have_ids(ids@, walked),
        forall|i: int| 0 <= i < list@.len() ==> walked.contains(#[trigger] list@[i]),
    ensures
        found@ == element_ids(ids@, list@),
{
    let mut found: Vec<NodeId> = Vec::new();
    for i in 0..list.len()
        invariant
            ids.wf(),
            have_ids(ids@, walked),
            forall|i: int| 0 <= i < list@.len() ==> walked.contains(#[trigger] list@[i]),
            found@ == element_ids(ids@, list@).take(i as int),
    {
        assert(walked.contains(list@[i as int]));
        match ids.get(list[i]) {
            Some(id) => {
                found.push(id);
            },
            None => {},
        }
        assert(found@ =~= element_ids(ids@, list@).take(i + 1));
    }
    assert(element_ids(ids@, list@).take(list@.len() as int) =~= element_ids(ids@, list@));
    found
}

/// A node with its children and its selection.
fn completed(node: Node, children: Vec<NodeId>, selection: Option<TextSelection>) -> (result: Node)
    ensures
        result@ == with_children(node@, children@, selection),
{
    let mut result: Node = node;
    result.children = children;
    result.props.text_selection = selection;
    result
}

/// Builds one node and adds it to what is emitted; see [`built`].
fn build(
    node: &AxNode,
    id: NodeId,
    children: Vec<NodeId>,
    ids: &mut NodeIdMap,
    out: &mut Vec<(NodeId, Node)>,
    Ghost(list): Ghost<Seq<ElementKey>>,
)
    requires
        old(ids).wf(),
        range_fits(*node),
        id == id_of(old(ids)@, Owner::Element(node.key)),
        children@ == element_ids(old(ids)@, list),
    ensures
        final(ids).wf(),
        final(ids)@ == built(*node, list, old(ids)@).owners,
        node_views(final(out)@) == node_views(old(out)@) + built(*node, list, old(ids)@).out,
{
    let ghost before = node_views(out@);
    let own: Node = build_container(node);
    let text: Option<String> = if has_text_runs(node.accesskit_role()) {
        as_string(&node.value)
    } else {
        None
    };
    match text {
        Some(text) => {
            let (runs, layout) = build_runs(text.as_str(), node.wraps.as_slice(), id, ids);
            let chosen: Option<TextSelection> = match node.selected_range {
                Some((start, len)) => selection(text.as_str(), layout.as_slice(), start, len),
                None => None,
            };
            let mut children: Vec<NodeId> = children;
            let mut under: Vec<NodeId> = ids_of(runs.as_slice());
            children.append(&mut under);
            let mut runs: Vec<(NodeId, Node)> = runs;
            let container: Node = completed(own, children, chosen);
            let ghost shown = node_views(runs@);
            proof {
                lemma_node_views_concat(out@, runs@);
            }
            out.append(&mut runs);
            proof {
                lemma_node_views_push(out@, (id, container));
                assert(before + shown.push((id, container@)) =~= (before + shown).push(
                    (id, container@),
                ));
            }
            out.push((id, container));
        },
        None => {
            let container: Node = completed(own, children, None);
            proof {
                lemma_node_views_push(out@, (id, container));
                assert(before + seq![(id, container@)] =~= before.push((id, container@)));
            }
            out.push((id, container));
        },
    }
}

/// Gives every walked element its id.
fn allocate_ids(nodes: &[AxNode], ids: &mut NodeIdMap)
    requires
        old(ids).wf(),
    ensures
        final(ids).wf(),
        final(ids)@ == with_owners(old(ids)@, element_owners(keys_of(nodes@))),
{
    let ghost all = element_owners(keys_of(nodes@));
    assert(all.take(0) =~= Seq::<Owner>::empty());
    for i in 0..nodes.len()
        invariant
            all == element_owners(keys_of(nodes@)),
            ids.wf(),
            ids@ == with_owners(old(ids)@, all.take(i as int)),
    {
        assert(all.take(i + 1).drop_last() =~= all.take(i as int));
        ids.id_for(nodes[i].key);
    }
    assert(all.take(nodes@.len() as int) =~= all);
}

pub proof fn lemma_owners_kept(owners: Seq<Owner>, more: Seq<Owner>, keys: Set<ElementKey>)
    requires
        owners.no_duplicates(),
        have_ids(owners, keys),
    ensures
        have_ids(with_owners(owners, more), keys),
{
    lemma_with_owners(owners, more);
    assert forall|k: ElementKey| #[trigger] keys.contains(k) implies with_owners(
        owners,
        more,
    ).contains(Owner::Element(k)) by {
        assert(owners.contains(Owner::Element(k)));
    }
}

pub proof fn lemma_walked_have_ids(nodes: Seq<AxNode>, owners: Seq<Owner>)
    requires
        owners.no_duplicates(),
    ensures
        have_ids(
            with_owners(owners, element_owners(keys_of(nodes))),
            keys_of(nodes).to_set(),
        ),
{
    let keys = keys_of(nodes);
    let all = element_owners(keys);
    lemma_with_owners(owners, all);
    assert forall|k: ElementKey| #[trigger] keys.to_set().contains(k) implies with_owners(
        owners,
        all,
    ).contains(Owner::Element(k)) by {
        let i = keys.index_of(k);
        assert(all[i] == Owner::Element(k));
        assert(all.contains(Owner::Element(k)));
    }
}

/// Assembles a walk into a whole window's update; `None` for a walk that came up
/// empty. Ids outlast walks, so an element that survives one keeps its own, and
/// the consumer sees a change rather than a replacement.
pub fn build_window_update(nodes: &[AxNode], ids: &mut NodeIdMap) -> (update: Option<TreeUpdate>)
    requires
        old(ids).wf(),
        forall|i: int| 0 <= i < nodes@.len() ==> range_fits(#[trigger] nodes@[i]),
    ensures
        final(ids).wf(),
        nodes@.len() == 0 ==> update is None && final(ids)@ == old(ids)@,
        nodes@.len() > 0 ==> {
            &&& final(ids)@ == window_emission(nodes@, old(ids)@).owners
            &&& update matches Some(u) && u@ == window_update(nodes@, old(ids)@)
        },
{
    if nodes.len() == 0 {
        return None;
    }
    proof {
        ids.lemma_wf();
        lemma_walked_have_ids(nodes@, ids@);
    }
    let walked: ElementSet = walked_keys(nodes);
    allocate_ids(nodes, ids);
    let ghost given = ids@;
    let root: NodeId = ids.id_for(nodes[0].key);
    proof {
        assert(keys_of(nodes@)[0] == nodes@[0].key);
        assert(walked@.contains(nodes@[0].key));
        assert(ids@ == given);
    }
    let mut claimed: ElementSet = ElementSet::new();
    let mut out: Vec<(NodeId, Node)> = Vec::new();
    let mut focus: NodeId = root;
    let ghost start = Emission { owners: given, out: Seq::empty(), focus: root };
    let ghost lists = shown_lists(nodes@, walked@);
    assert(node_views(out@) =~= Seq::<(NodeId, NodeView)>::empty());
    proof {
        lemma_shown_len(nodes@, walked@);
    }
    let mut i: usize = 0;
    assert(lists.take(0) =~= Seq::<Seq<ElementKey>>::empty());
    assert(nodes@.take(0) =~= Seq::<AxNode>::empty());
    while i < nodes.len()
        invariant
            i <= nodes.len(),
            walked@ == keys_of(nodes@).to_set(),
            lists == shown_lists(nodes@, walked@),
            lists.len() == nodes@.len(),
            forall|i: int| 0 <= i < nodes@.len() ==> range_fits(#[trigger] nodes@[i]),
            ids.wf(),
            have_ids(ids@, walked@),
            claimed@ == taken(shown_lists(nodes@.take(i as int), walked@)),
            ({
                let state = emit_all(start, nodes@.take(i as int), lists.take(i as int));
                &&& ids@ == state.owners
                &&& node_views(out@) == state.out
                &&& focus == state.focus
            }),
        decreases nodes.len() - i,
    {
        let ghost more = nodes@.take(i + 1);
        assert(more.drop_last() =~= nodes@.take(i as int));
        assert(lists.take(i + 1).drop_last() =~= lists.take(i as int));
        let node: &AxNode = &nodes[i];
        proof {
            assert(keys_of(nodes@)[i as int] == node.key);
            assert(walked@.contains(node.key));
        }
        let ghost before = ids@;
        let id: NodeId = ids.id_for(node.key);
        assert(ids@ == before);
        let list: Vec<ElementKey> = claim(node.children.as_slice(), &walked, &mut claimed);
        proof {
            lemma_shown_prefix(nodes@, walked@, i + 1);
            lemma_shown_prefix(nodes@, walked@, i as int);
            let shown = shown_lists(more, walked@);
            assert(shown.drop_last() =~= shown_lists(nodes@.take(i as int), walked@));
            assert(shown.last() == list@);
            assert(lists[i as int] == lists.take(i + 1)[i as int]);
            assert(lists.take(i + 1).last() == list@);
            lemma_claimed(
                node.children@,
                walked@,
                taken(shown_lists(nodes@.take(i as int), walked@)),
            );
            assert forall|j: int| 0 <= j < list@.len() implies walked@.contains(
                #[trigger] list@[j],
            ) by {
                assert(list@.contains(list@[j]));
            }
        }
        proof {
            ids.lemma_wf();
        }
        let children: Vec<NodeId> = child_ids(list.as_slice(), ids, Ghost(walked@));
        build(node, id, children, ids, &mut out, Ghost(list@));
        proof {
            match shown_text(*node) {
                Some(text) => {
                    lemma_owners_kept(
                        before,
                        run_owners(id, spans_of(capped(text), node.wraps@).len()),
                        walked@,
                    );
                },
                None => {},
            }
        }
        if node.states.focused {
            focus = id;
        }
        i = i + 1;
    }
    assert(nodes@.take(i as int) =~= nodes@);
    assert(lists.take(i as int) =~= lists);
    Some(TreeUpdate { nodes: out, tree: Some(Tree { root }), focus })
}

/// The children shown for the first nodes are the first of those shown for all.
pub proof fn lemma_shown_prefix(nodes: Seq<AxNode>, walked: Set<ElementKey>, n: int)
    requires
        0 <= n <= nodes.len(),
    ensures
        shown_lists(nodes.take(n), walked) == shown_lists(nodes, walked).take(n),
    decreases nodes.len(),
{
    lemma_shown_len(nodes, walked);
    lemma_shown_len(nodes.take(n), walked);
    if n == nodes.len() {
        assert(nodes.take(n) =~= nodes);
        assert(shown_lists(nodes, walked).take(n) =~= shown_lists(nodes, walked));
    } else {
        let init = nodes.drop_last();
        lemma_shown_prefix(init, walked, n);
        assert(init.take(n) =~= nodes.take(n));
        assert(shown_lists(nodes, walked).take(n) =~= shown_lists(init, walked).take(n));
    }
}

/// A child is shown under the first element of the walk that lists it, and under no
/// other, if it was walked itself.
pub proof fn law_the_first_to_list_a_child_keeps_it(
    nodes: Seq<AxNode>,
    walked: Set<ElementKey>,
    i: int,
    key: ElementKey,
)
    requires
        0 <= i < nodes.len(),
    ensures
        shown_lists(nodes, walked).len() == nodes.len(),
        shown_lists(nodes, walked)[i].contains(key) <==> walked.contains(key)
            && nodes[i].children@.contains(key) && forall|j: int|
            0 <= j < i ==> !(#[trigger] nodes[j]).children@.contains(key),
    decreases nodes.len(),
{
    lemma_shown_len(nodes, walked);
    let init = nodes.drop_last();
    let n = nodes.len() - 1;
    let before = shown_lists(init, walked);
    lemma_shown_len(init, walked);
    if i < n {
        law_the_first_to_list_a_child_keeps_it(init, walked, i, key);
        assert(shown_lists(nodes, walked)[i] == before[i]);
        assert(init[i] == nodes[i]);
        assert forall|j: int| 0 <= j < i implies init[j] == #[trigger] nodes[j] by {}
    } else {
        lemma_claimed(nodes.last().children@, walked, taken(before));
        lemma_taken_are_listed(init, walked, key);
        assert forall|j: int| 0 <= j < init.len() implies init[j] == #[trigger] nodes[j] by {}
        assert forall|j: int| 0 <= j < init.len() implies #[trigger] init[j] == nodes[j] by {}
    }
}

/// What is taken is what was walked and some element lists.
proof fn lemma_taken_are_listed(nodes: Seq<AxNode>, walked: Set<ElementKey>, key: ElementKey)
    ensures
        taken(shown_lists(nodes, walked)).contains(key) <==> walked.contains(key) && exists|j: int|
            0 <= j < nodes.len() && (#[trigger] nodes[j]).children@.contains(key),
    decreases nodes.len(),
{
    if nodes.len() > 0 {
        let init = nodes.drop_last();
        let n = nodes.len() - 1;
        let before = shown_lists(init, walked);
        let lists = shown_lists(nodes, walked);
        lemma_taken_are_listed(init, walked, key);
        lemma_claimed(nodes.last().children@, walked, taken(before));
        assert(lists.drop_last() =~= before);
        assert(nodes[n] == nodes.last());
        if exists|j: int| 0 <= j < init.len() && (#[trigger] init[j]).children@.contains(key) {
            let j = choose|j: int|
                0 <= j < init.len() && (#[trigger] init[j]).children@.contains(key);
            assert(nodes[j].children@.contains(key));
        }
        if exists|j: int| 0 <= j < nodes.len() && (#[trigger] nodes[j]).children@.contains(key) {
            let j = choose|j: int|
                0 <= j < nodes.len() && (#[trigger] nodes[j]).children@.contains(key);
            if j < n {
                assert(init[j].children@.contains(key));
            }
        }
    }
}

/// The children that an element is shown with come in the order in which it lists them
/// first.
pub proof fn law_children_stay_in_order(
    nodes: Seq<AxNode>,
    walked: Set<ElementKey>,
    i: int,
    a: int,
    b: int,
    p: int,
    q: int,
)
    requires
        0 <= i < nodes.len(),
        0 <= a < b < shown_lists(nodes, walked)[i].len(),
        first_match(
            nodes[i].children@,
            |k: ElementKey| k == shown_lists(nodes, walked)[i][a],
            p,
        ),
        first_match(
            nodes[i].children@,
            |k: ElementKey| k == shown_lists(nodes, walked)[i][b],
            q,
        ),
    ensures
        p < q,
    decreases nodes.len(),
{
    lemma_shown_len(nodes, walked);
    let init = nodes.drop_last();
    let before = shown_lists(init, walked);
    lemma_shown_len(init, walked);
    if i < nodes.len() - 1 {
        assert(shown_lists(nodes, walked)[i] == before[i]);
        assert(init[i] == nodes[i]);
        law_children_stay_in_order(init, walked, i, a, b, p, q);
    } else {
        lemma_claimed_in_order(nodes[i].children@, walked, taken(before), a, b, p, q);
    }
}

proof fn lemma_claimed_in_order(
    children: Seq<ElementKey>,
    walked: Set<ElementKey>,
    claimed: Set<ElementKey>,
    a: int,
    b: int,
    p: int,
    q: int,
)
    requires
        ({
            let all = claimed_children(children, walked, claimed);
            &&& 0 <= a < b < all.len()
            &&& first_match(children, |k: ElementKey| k == all[a], p)
            &&& first_match(children, |k: ElementKey| k == all[b], q)
        }),
    ensures
        p < q,
    decreases children.len(),
{
    let all = claimed_children(children, walked, claimed);
    let init = children.drop_last();
    let before = claimed_children(init, walked, claimed);
    let n = children.len() - 1;
    lemma_claimed(init, walked, claimed);
    lemma_claimed(children, walked, claimed);
    assert(a < before.len());
    assert(all[a] == before[a]);
    assert(before.contains(before[a]));
    let r = init.index_of(before[a]);
    assert(children[r] == all[a]);
    assert(p <= r) by {
        if r < p {
            assert(children[r] != all[a]);
        }
    }
    if b < before.len() {
        assert(all[b] == before[b]);
        assert(before.contains(before[b]));
        let s = init.index_of(before[b]);
        assert(children[s] == all[b]);
        assert(q <= s) by {
            if s < q {
                assert(children[s] != all[b]);
            }
        }
        assert(first_match(init, |k: ElementKey| k == before[a], p)) by {
            assert forall|j: int| 0 <= j < p implies init[j] != before[a] by {
                assert(children[j] != all[a]);
            }
        }
        assert(first_match(init, |k: ElementKey| k == before[b], q)) by {
            assert forall|j: int| 0 <= j < q implies init[j] != before[b] by {
                assert(children[j] != all[b]);
            }
        }
        lemma_claimed_in_order(init, walked, claimed, a, b, p, q);
    } else if q < n {
        assert(init[q] == all[b]);
        assert(all.contains(all[b]));
        assert(before.contains(all[b]));
    }
}

/// The next element to read is the first in the queue that was not asked for yet, and
/// there is none only if all were.
pub proof fn law_elements_are_read_in_turn(queue: Seq<ElementKey>, seen: Set<ElementKey>, j: int)
    ensures
        match next_unseen(queue, seen) {
            Some(i) => 0 <= i < queue.len() && !seen.contains(queue[i]) && (0 <= j < i
                ==> seen.contains(queue[j])),
            None => 0 <= j < queue.len() ==> seen.contains(queue[j]),
        },
    decreases queue.len(),
{
    if queue.len() > 0 && seen.contains(queue[0]) {
        let rest = queue.drop_first();
        law_elements_are_read_in_turn(rest, seen, j - 1);
        if 0 < j < queue.len() {
            assert(rest[j - 1] == queue[j]);
        }
    }
}

/// The text of a node is shown as runs where its role carries text and its value is one.
pub proof fn law_text_is_shown_where_it_is_carried(node: AxNode)
    ensures
        shown_text(node) is Some <==> carries_text(role_of(node)) && (node.value matches Some(
            value,
        ) && value is Text),
        node.value matches Some(AxValue::Text(text)) ==> (shown_text(node) matches Some(shown)
            ==> shown == text@),
{
}

} // verus!
