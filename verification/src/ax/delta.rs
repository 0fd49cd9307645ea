//! Reducing a walk to what actually changed.
//!
//! A walk produces the whole window every time, and sending the whole window
//! every time would put it on the wire whenever one node of it flickers. An
//! element that survives a walk keeps its node id, so the same id in two walks
//! denotes the same node, and the two can be compared.
//!
//! Nodes are compared as they stand finished for the wire, by their serialized
//! form: the toolkit's node has no equality of its own, and this is the
//! comparison that matters to the consumer.

use accesskit::Node as ToolkitNode;
use accesskit::Tree as ToolkitTree;
use accesskit::TreeId as ToolkitTreeId;
use crate::tree::NodeId;
use std::collections::HashMap;
use vstd::prelude::*;

verus! {

/// A node as the wire carries it, carried through.
#[verifier::external_type_specification]
#[verifier::external_body]
pub struct ExToolkitNode(ToolkitNode);

/// What an update says of the tree as a whole, carried through.
#[verifier::external_type_specification]
#[verifier::external_body]
pub struct ExToolkitTree(ToolkitTree);

/// Which tree an update is for, carried through.
#[verifier::external_type_specification]
#[verifier::external_body]
pub struct ExToolkitTreeId(ToolkitTreeId);

/// The bytes that `serde_json::to_vec` makes of a node, or `None` where it fails.
pub uninterp spec fn encoding(node: ToolkitNode) -> Option<Seq<u8>>;

/// The content of optional bytes.
pub open spec fn bytes_view(bytes: Option<Vec<u8>>) -> Option<Seq<u8>> {
    match bytes {
        Some(bytes) => Some(bytes@),
        None => None,
    }
}

/// `serde_json::to_vec` on a node: whether it succeeds, and the bytes it gives, are
/// a function of the node.
#[verifier::external_body]
fn encode(node: &ToolkitNode) -> (encoded: Option<Vec<u8>>)
    ensures
        bytes_view(encoded) == encoding(*node),
{
    serde_json::to_vec(node).ok()
}

/// An update that is ready for the wire.
pub struct WireUpdate {
    pub nodes: Vec<(NodeId, ToolkitNode)>,
    /// The tree itself, where the update is not a delta.
    pub tree: Option<ToolkitTree>,
    pub tree_id: ToolkitTreeId,
    pub focus: NodeId,
}

/// The content of an update.
#[verifier::ext_equal]
pub struct WireView {
    pub nodes: Seq<(NodeId, ToolkitNode)>,
    pub tree: Option<ToolkitTree>,
    pub tree_id: ToolkitTreeId,
    pub focus: NodeId,
}

impl View for WireUpdate {
    type V = WireView;

    open spec fn view(&self) -> WireView {
        WireView {
            nodes: self.nodes@,
            tree: self.tree,
            tree_id: self.tree_id,
            focus: self.focus,
        }
    }
}

/// The content of optional updates.
pub open spec fn wire_view(update: Option<WireUpdate>) -> Option<WireView> {
    match update {
        Some(update) => Some(update@),
        None => None,
    }
}

/// What a window last put on the wire.
#[verifier::ext_equal]
pub struct EmittedView {
    /// Each node the consumer holds, serialized.
    pub nodes: Map<NodeId, Seq<u8>>,
    /// The focus the consumer believes in.
    pub focus: Option<NodeId>,
    /// Whether the consumer has received this window's tree.
    pub announced: bool,
}

/// What a window last put on the wire, so that the next walk can be reduced to its
/// difference.
pub struct EmittedTree {
    nodes: HashMap<u64, Vec<u8>>,
    focus: Option<NodeId>,
    announced: bool,
}

/// The serialized nodes, by id.
pub open spec fn by_id(nodes: Map<u64, Vec<u8>>) -> Map<NodeId, Seq<u8>> {
    Map::new(|id: NodeId| nodes.contains_key(id.0), |id: NodeId| nodes[id.0]@)
}

impl View for EmittedTree {
    type V = EmittedView;

    closed spec fn view(&self) -> EmittedView {
        EmittedView {
            nodes: by_id(self.nodes@),
            focus: self.focus,
            announced: self.announced,
        }
    }
}

/// What nothing has been sent of.
pub open spec fn unsent() -> EmittedView {
    EmittedView { nodes: Map::empty(), focus: None, announced: false }
}

// ---------------------------------------------------------------- the difference

/// The encodings of a list of nodes.
pub open spec fn encodings(nodes: Seq<(NodeId, ToolkitNode)>) -> Seq<Option<Seq<u8>>> {
    nodes.map_values(|entry: (NodeId, ToolkitNode)| encoding(entry.1))
}

/// Whether a node differs from what the consumer holds. One that cannot be
/// serialized cannot be compared, so it counts as changed.
pub open spec fn differs(
    held: Map<NodeId, Seq<u8>>,
    id: NodeId,
    encoded: Option<Seq<u8>>,
) -> bool {
    match encoded {
        Some(bytes) => !(held.contains_key(id) && held[id] == bytes),
        None => true,
    }
}

/// Those of the nodes, in order, that differ from what the consumer holds.
pub open spec fn changed(
    held: Map<NodeId, Seq<u8>>,
    nodes: Seq<(NodeId, ToolkitNode)>,
    encoded: Seq<Option<Seq<u8>>>,
) -> Seq<(NodeId, ToolkitNode)>
    decreases nodes.len(),
{
    if nodes.len() == 0 {
        Seq::empty()
    } else {
        let before = changed(held, nodes.drop_last(), encoded.drop_last());
        if differs(held, nodes.last().0, encoded.last()) {
            before.push(nodes.last())
        } else {
            before
        }
    }
}

/// What the nodes of a walk are remembered as. What cannot be serialized is not.
pub open spec fn remembered(
    nodes: Seq<(NodeId, ToolkitNode)>,
    encoded: Seq<Option<Seq<u8>>>,
) -> Map<NodeId, Seq<u8>>
    decreases nodes.len(),
{
    if nodes.len() == 0 {
        Map::empty()
    } else {
        let before = remembered(nodes.drop_last(), encoded.drop_last());
        match encoded.last() {
            Some(bytes) => before.insert(nodes.last().0, bytes),
            None => before,
        }
    }
}

/// What is known to be sent after a whole walk. Nodes that the walk no longer
/// reached are forgotten, so that one that returns is sent again.
pub open spec fn after_walk(
    state: EmittedView,
    full: WireView,
    encoded: Seq<Option<Seq<u8>>>,
) -> EmittedView {
    EmittedView {
        nodes: remembered(full.nodes, encoded),
        focus: Some(full.focus),
        announced: true,
    }
}

/// What is sent of a whole walk: all of it the first time, and later the nodes
/// that changed, without the tree. Nothing is sent if nothing changed, focus
/// included. A node that vanished needs no mention: its parent's list says so.
pub open spec fn sent(
    state: EmittedView,
    full: WireView,
    encoded: Seq<Option<Seq<u8>>>,
) -> Option<WireView> {
    let nodes = changed(state.nodes, full.nodes, encoded);
    if !state.announced {
        Some(full)
    } else if nodes.len() == 0 && state.focus == Some(full.focus) {
        None
    } else {
        Some(WireView { nodes, tree: None, ..full })
    }
}

/// What is known to be sent after one node was read again: the others stay.
pub open spec fn after_refresh(
    state: EmittedView,
    id: NodeId,
    encoded: Option<Seq<u8>>,
) -> EmittedView {
    match encoded {
        Some(bytes) => EmittedView { nodes: state.nodes.insert(id, bytes), ..state },
        None => state,
    }
}

fn same_bytes(a: &[u8], b: &[u8]) -> (same: bool)
    ensures
        same == (a@ == b@),
{
    if a.len() != b.len() {
        return false;
    }
    for i in 0..a.len()
        invariant
            a@.len() == b@.len(),
            forall|j: int| 0 <= j < i ==> a@[j] == b@[j],
    {
        if a[i] != b[i] {
            return false;
        }
    }
    assert(a@ =~= b@);
    true
}

impl EmittedTree {
    pub fn new() -> (emitted: Self)
        ensures
            emitted@ == unsent(),
    {
        let emitted = EmittedTree { nodes: HashMap::new(), focus: None, announced: false };
        assert(emitted@.nodes =~= Map::<NodeId, Seq<u8>>::empty());
        emitted
    }

    /// How many nodes the consumer is known to hold.
    pub fn len(&self) -> (count: usize)
        ensures
            count == self@.nodes.dom().len(),
    {
        broadcast use vstd::std_specs::hash::group_hash_axioms;

        proof {
            let keys = self.nodes@.dom();
            let f = |k: u64| NodeId(k);
            assert(keys.map(f) =~= self@.nodes.dom()) by {
                assert forall|id: NodeId| #[trigger]
                    self@.nodes.dom().contains(id) implies keys.map(f).contains(id) by {
                    assert(keys.contains(id.0) && f(id.0) == id);
                }
            }
            vstd::set_lib::lemma_map_size(keys, self@.nodes.dom(), f);
        }
        self.nodes.len()
    }

    pub fn is_empty(&self) -> (empty: bool)
        ensures
            empty == (self@.nodes.dom().len() == 0),
    {
        self.len() == 0
    }

    /// The focus the consumer believes in, for an update that must not disturb it.
    pub fn focus(&self) -> (focus: Option<NodeId>)
        ensures
            focus == self@.focus,
    {
        self.focus
    }

    /// Whether this window's tree has been sent, so that a delta means something.
    pub fn is_announced(&self) -> (announced: bool)
        ensures
            announced == self@.announced,
    {
        self.announced
    }

    /// Whether the consumer holds a node. A delta may only name children that it
    /// holds, or that come with the delta.
    pub fn holds(&self, id: NodeId) -> (held: bool)
        ensures
            held == self@.nodes.contains_key(id),
    {
        broadcast use vstd::std_specs::hash::group_hash_axioms;

        self.nodes.contains_key(&id.0)
    }

    /// See [`differs`].
    fn is_changed(&self, id: NodeId, encoded: &Option<Vec<u8>>) -> (changed: bool)
        ensures
            changed == differs(self@.nodes, id, bytes_view(*encoded)),
    {
        broadcast use vstd::std_specs::hash::group_hash_axioms;

        match encoded {
            Some(bytes) => match self.nodes.get(&id.0) {
                Some(held) => !same_bytes(held.as_slice(), bytes.as_slice()),
                None => true,
            },
            None => true,
        }
    }

    /// Compares one node, read again and serialized, with what the consumer holds:
    /// `true` if it is to be sent.
    pub fn reduce_encoded_node(&mut self, id: NodeId, encoded: Option<Vec<u8>>) -> (send: bool)
        ensures
            send == differs(old(self)@.nodes, id, bytes_view(encoded)),
            final(self)@ == after_refresh(old(self)@, id, bytes_view(encoded)),
    {
        broadcast use vstd::std_specs::hash::group_hash_axioms;

        let send: bool = self.is_changed(id, &encoded);
        match encoded {
            Some(bytes) => {
                if send {
                    self.nodes.insert(id.0, bytes);
                }
                proof {
                    assert(self@.nodes =~= old(self)@.nodes.insert(id, bytes@));
                }
            },
            None => {},
        }
        send
    }

    /// Compares one node, read again, with what the consumer holds: `true` if it is
    /// to be sent. What is known of the other nodes stays: a single node says
    /// nothing about them.
    pub fn reduce_node(&mut self, id: NodeId, node: &ToolkitNode) -> (send: bool)
        ensures
            send == differs(old(self)@.nodes, id, encoding(*node)),
            final(self)@ == after_refresh(old(self)@, id, encoding(*node)),
    {
        self.reduce_encoded_node(id, encode(node))
    }

    /// Reduces a walk whose nodes serialize to `encoded`; see [`sent`].
    pub fn reduce_encoded(&mut self, full: WireUpdate, encoded: Vec<Option<Vec<u8>>>) -> (update:
        Option<WireUpdate>)
        requires
            encoded@.len() == full.nodes@.len(),
        ensures
            wire_view(update) == sent(old(self)@, full@, encoded@.map_values(
                |e: Option<Vec<u8>>| bytes_view(e),
            )),
            final(self)@ == after_walk(
                old(self)@,
                full@,
                encoded@.map_values(|e: Option<Vec<u8>>| bytes_view(e)),
            ),
    {
        broadcast use vstd::std_specs::hash::group_hash_axioms;

        let ghost all = encoded@.map_values(|e: Option<Vec<u8>>| bytes_view(e));
        let ghost state = self@;
        let mut news: Vec<bool> = Vec::new();
        let mut ids: Vec<NodeId> = Vec::new();
        for i in 0..full.nodes.len()
            invariant
                encoded@.len() == full.nodes@.len(),
                all == encoded@.map_values(|e: Option<Vec<u8>>| bytes_view(e)),
                self@ == state,
                news@.len() == i,
                ids@.len() == i,
                forall|j: int|
                    0 <= j < i ==> (#[trigger] news@[j]) == differs(
                        state.nodes,
                        full.nodes@[j].0,
                        all[j],
                    ),
                forall|j: int| 0 <= j < i ==> (#[trigger] ids@[j]) == full.nodes@[j].0,
        {
            let id: NodeId = full.nodes[i].0;
            news.push(self.is_changed(id, &encoded[i]));
            ids.push(id);
        }
        let seen: HashMap<u64, Vec<u8>> = remember(
            ids.as_slice(),
            encoded,
            Ghost(full.nodes@),
        );
        let focus_moved: bool = self.focus != Some(full.focus);
        let announced: bool = self.announced;
        self.nodes = seen;
        self.focus = Some(full.focus);
        self.announced = true;
        assert(self@ =~= after_walk(state, full@, all));
        if !announced {
            return Some(full);
        }
        let WireUpdate { nodes, tree: _, tree_id, focus } = full;
        let nodes: Vec<(NodeId, ToolkitNode)> = picked(
            nodes,
            news.as_slice(),
            Ghost(state.nodes),
            Ghost(all),
        );
        if nodes.len() == 0 && !focus_moved {
            return None;
        }
        Some(WireUpdate { nodes, tree: None, tree_id, focus })
    }

    /// Reduces a whole walk to the update that is to be sent, or `None` when nothing
    /// changed; see [`sent`].
    pub fn reduce(&mut self, full: WireUpdate) -> (update: Option<WireUpdate>)
        ensures
            wire_view(update) == sent(old(self)@, full@, encodings(full.nodes@)),
            final(self)@ == after_walk(old(self)@, full@, encodings(full.nodes@)),
    {
        let mut encoded: Vec<Option<Vec<u8>>> = Vec::new();
        for i in 0..full.nodes.len()
            invariant
                encoded@.len() == i,
                forall|j: int|
                    0 <= j < i ==> bytes_view(#[trigger] encoded@[j]) == encoding(
                        full.nodes@[j].1,
                    ),
        {
            encoded.push(encode(&full.nodes[i].1));
        }
        assert(encoded@.map_values(|e: Option<Vec<u8>>| bytes_view(e)) =~= encodings(full.nodes@));
        self.reduce_encoded(full, encoded)
    }
}

impl Default for EmittedTree {
    fn default() -> (emitted: Self)
        ensures
            emitted@ == unsent(),
    {
        Self::new()
    }
}

/// See [`remembered`].
fn remember(
    ids: &[NodeId],
    encoded: Vec<Option<Vec<u8>>>,
    Ghost(nodes): Ghost<Seq<(NodeId, ToolkitNode)>>,
) -> (seen: HashMap<u64, Vec<u8>>)
    requires
        ids@.len() == encoded@.len() == nodes.len(),
        forall|j: int| 0 <= j < nodes.len() ==> (#[trigger] ids@[j]) == nodes[j].0,
    ensures
        by_id(seen@) == remembered(nodes, encoded@.map_values(
            |e: Option<Vec<u8>>| bytes_view(e),
        )),
{
    broadcast use vstd::std_specs::hash::group_hash_axioms;

    let ghost all = encoded@.map_values(|e: Option<Vec<u8>>| bytes_view(e));
    let ghost given = encoded@;
    let mut seen: HashMap<u64, Vec<u8>> = HashMap::new();
    assert(by_id(seen@) =~= Map::<NodeId, Seq<u8>>::empty());
    let mut i: usize = 0;
    for bytes in rest: encoded.into_iter()
        invariant
            rest.seq() == given,
            i == rest.index(),
            all == given.map_values(|e: Option<Vec<u8>>| bytes_view(e)),
            ids@.len() == given.len() == nodes.len(),
            forall|j: int| 0 <= j < nodes.len() ==> (#[trigger] ids@[j]) == nodes[j].0,
            by_id(seen@) == remembered(nodes.take(i as int), all.take(i as int)),
    {
        broadcast use vstd::std_specs::hash::group_hash_axioms;

        let ghost before = by_id(seen@);
        proof {
            assert(nodes.take(i + 1).drop_last() =~= nodes.take(i as int));
            assert(all.take(i + 1).drop_last() =~= all.take(i as int));
            assert(all.take(i + 1).last() == bytes_view(bytes));
        }
        let id: NodeId = ids[i];
        match bytes {
            Some(bytes) => {
                seen.insert(id.0, bytes);
                assert(by_id(seen@) =~= before.insert(id, bytes@));
            },
            None => {},
        }
        i = i + 1;
    }
    assert(nodes.take(nodes.len() as int) =~= nodes);
    assert(all.take(all.len() as int) =~= all);
    seen
}

/// Those of the nodes that are marked; see [`changed`].
fn picked(
    nodes: Vec<(NodeId, ToolkitNode)>,
    news: &[bool],
    Ghost(held): Ghost<Map<NodeId, Seq<u8>>>,
    Ghost(all): Ghost<Seq<Option<Seq<u8>>>>,
) -> (some: Vec<(NodeId, ToolkitNode)>)
    requires
        news@.len() == nodes@.len() == all.len(),
        forall|j: int|
            0 <= j < news@.len() ==> (#[trigger] news@[j]) == differs(held, nodes@[j].0, all[j]),
    ensures
        some@ == changed(held, nodes@, all),
{
    let ghost every = nodes@;
    let mut some: Vec<(NodeId, ToolkitNode)> = Vec::new();
    let mut i: usize = 0;
    for node in rest: nodes.into_iter()
        invariant
            rest.seq() == every,
            i == rest.index(),
            news@.len() == every.len() == all.len(),
            forall|j: int|
                0 <= j < news@.len() ==> (#[trigger] news@[j]) == differs(
                    held,
                    every[j].0,
                    all[j],
                ),
            some@ == changed(held, every.take(i as int), all.take(i as int)),
    {
        proof {
            assert(every.take(i + 1).drop_last() =~= every.take(i as int));
            assert(all.take(i + 1).drop_last() =~= all.take(i as int));
        }
        if news[i] {
            some.push(node);
        }
        i = i + 1;
    }
    assert(every.take(every.len() as int) =~= every);
    assert(all.take(all.len() as int) =~= all);
    some
}

// ---------------------------------------------------------------- laws

/// Whether a list of nodes names no id twice.
pub open spec fn each_id_once(nodes: Seq<(NodeId, ToolkitNode)>) -> bool {
    forall|i: int, j: int|
        0 <= i < j < nodes.len() ==> (#[trigger] nodes[i]).0 != (#[trigger] nodes[j]).0
}

/// Each node of a walk is remembered as it was serialized.
pub proof fn lemma_remembered(
    nodes: Seq<(NodeId, ToolkitNode)>,
    encoded: Seq<Option<Seq<u8>>>,
    i: int,
)
    requires
        nodes.len() == encoded.len(),
        each_id_once(nodes),
        0 <= i < nodes.len(),
        encoded[i] is Some,
    ensures
        remembered(nodes, encoded).contains_key(nodes[i].0),
        remembered(nodes, encoded)[nodes[i].0] == encoded[i].unwrap(),
    decreases nodes.len(),
{
    let (init, codes) = (nodes.drop_last(), encoded.drop_last());
    if i < init.len() {
        assert(each_id_once(init)) by {
            assert forall|a: int, b: int| 0 <= a < b < init.len() implies (
            #[trigger] init[a]).0 != (#[trigger] init[b]).0 by {
                assert(nodes[a].0 != nodes[b].0);
            }
        }
        lemma_remembered(init, codes, i);
        assert(init[i] == nodes[i] && codes[i] == encoded[i]);
        assert(nodes[i].0 != nodes[nodes.len() - 1].0);
    }
}

proof fn lemma_none_changed(
    held: Map<NodeId, Seq<u8>>,
    nodes: Seq<(NodeId, ToolkitNode)>,
    encoded: Seq<Option<Seq<u8>>>,
)
    requires
        nodes.len() == encoded.len(),
        forall|i: int| 0 <= i < nodes.len() ==> !differs(held, (#[trigger] nodes[i]).0, encoded[i]),
    ensures
        changed(held, nodes, encoded) == Seq::<(NodeId, ToolkitNode)>::empty(),
    decreases nodes.len(),
{
    if nodes.len() > 0 {
        let (init, codes) = (nodes.drop_last(), encoded.drop_last());
        assert forall|i: int| 0 <= i < init.len() implies !differs(
            held,
            (#[trigger] init[i]).0,
            codes[i],
        ) by {
            assert(!differs(held, nodes[i].0, encoded[i]));
        }
        lemma_none_changed(held, init, codes);
        assert(!differs(held, nodes[nodes.len() - 1].0, encoded[nodes.len() - 1]));
    }
}

/// A walk that finds everything as it was sends nothing, and leaves everything as
/// it was, whatever came before the walk it repeats. Two walks are the same to the
/// consumer when their nodes have the same ids and serialize the same.
pub proof fn law_an_unchanged_walk_sends_nothing(
    state: EmittedView,
    full: WireView,
    again: WireView,
)
    requires
        each_id_once(full.nodes),
        full.nodes.len() == again.nodes.len(),
        forall|i: int|
            0 <= i < full.nodes.len() ==> (#[trigger] full.nodes[i]).0 == again.nodes[i].0
                && encoding(full.nodes[i].1) is Some && encoding(full.nodes[i].1) == encoding(
                again.nodes[i].1,
            ),
        full.focus == again.focus,
    ensures
        ({
            let after = after_walk(state, full, encodings(full.nodes));
            &&& sent(after, again, encodings(again.nodes)) is None
            &&& after_walk(after, again, encodings(again.nodes)) == after
        }),
{
    let (first, second) = (encodings(full.nodes), encodings(again.nodes));
    let after = after_walk(state, full, first);
    assert forall|i: int| 0 <= i < again.nodes.len() implies !differs(
        after.nodes,
        (#[trigger] again.nodes[i]).0,
        second[i],
    ) by {
        assert(full.nodes[i].0 == again.nodes[i].0);
        lemma_remembered(full.nodes, first, i);
    }
    lemma_none_changed(after.nodes, again.nodes, second);
    lemma_same_remembered(full.nodes, again.nodes);
}

proof fn lemma_same_remembered(
    nodes: Seq<(NodeId, ToolkitNode)>,
    others: Seq<(NodeId, ToolkitNode)>,
)
    requires
        nodes.len() == others.len(),
        forall|i: int|
            0 <= i < nodes.len() ==> (#[trigger] nodes[i]).0 == others[i].0 && encoding(nodes[i].1)
                == encoding(others[i].1),
    ensures
        remembered(nodes, encodings(nodes)) == remembered(others, encodings(others)),
    decreases nodes.len(),
{
    if nodes.len() > 0 {
        let (a, b) = (nodes.drop_last(), others.drop_last());
        assert forall|i: int| 0 <= i < a.len() implies (#[trigger] a[i]).0 == b[i].0 && encoding(
            a[i].1,
        ) == encoding(b[i].1) by {
            assert(nodes[i].0 == others[i].0);
        }
        lemma_same_remembered(a, b);
        assert(encodings(nodes).drop_last() =~= encodings(a));
        assert(encodings(others).drop_last() =~= encodings(b));
        let last = nodes.len() - 1;
        assert(nodes[last].0 == others[last].0);
    }
}

/// A node that was read again is not sent a second time as long as it serializes
/// the same, and what is known of every other node stays.
pub proof fn law_a_refresh_settles_and_leaves_the_rest(
    state: EmittedView,
    id: NodeId,
    encoded: Option<Seq<u8>>,
    other: NodeId,
)
    requires
        encoded is Some,
        other != id,
    ensures
        ({
            let after = after_refresh(state, id, encoded);
            &&& !differs(after.nodes, id, encoded)
            &&& after.nodes.contains_key(other) == state.nodes.contains_key(other)
            &&& state.nodes.contains_key(other) ==> after.nodes[other] == state.nodes[other]
            &&& after.focus == state.focus
            &&& after.announced == state.announced
        }),
{
}

/// What is remembered comes from the walk.
pub proof fn lemma_remembered_from(
    nodes: Seq<(NodeId, ToolkitNode)>,
    encoded: Seq<Option<Seq<u8>>>,
    id: NodeId,
)
    requires
        nodes.len() == encoded.len(),
        remembered(nodes, encoded).contains_key(id),
    ensures
        exists|i: int|
            0 <= i < nodes.len() && (#[trigger] nodes[i]).0 == id && encoded[i] == Some(
                remembered(nodes, encoded)[id],
            ),
    decreases nodes.len(),
{
    let (init, codes) = (nodes.drop_last(), encoded.drop_last());
    let last = nodes.len() - 1;
    if encoded[last] is Some && nodes[last].0 == id {
    } else {
        lemma_remembered_from(init, codes, id);
        let i = choose|i: int|
            0 <= i < init.len() && (#[trigger] init[i]).0 == id && codes[i] == Some(
                remembered(init, codes)[id],
            );
        assert(nodes[i].0 == id);
    }
}

/// What was picked as changed comes from the walk, each node at most once; what
/// was not is as the consumer holds it.
pub proof fn lemma_changed_from(
    held: Map<NodeId, Seq<u8>>,
    nodes: Seq<(NodeId, ToolkitNode)>,
    encoded: Seq<Option<Seq<u8>>>,
)
    requires
        nodes.len() == encoded.len(),
        each_id_once(nodes),
    ensures
        each_id_once(changed(held, nodes, encoded)),
        forall|k: int|
            0 <= k < changed(held, nodes, encoded).len() ==> nodes.contains(
                #[trigger] changed(held, nodes, encoded)[k],
            ),
        forall|i: int|
            0 <= i < nodes.len() && differs(held, (#[trigger] nodes[i]).0, encoded[i]) ==> changed(
                held,
                nodes,
                encoded,
            ).contains(nodes[i]),
        forall|i: int, k: int|
            0 <= i < nodes.len() && !differs(held, (#[trigger] nodes[i]).0, encoded[i]) && 0 <= k
                < changed(held, nodes, encoded).len() ==> (#[trigger] changed(
                held,
                nodes,
                encoded,
            )[k]).0 != nodes[i].0,
    decreases nodes.len(),
{
    if nodes.len() > 0 {
        let (init, codes) = (nodes.drop_last(), encoded.drop_last());
        let last = nodes.len() - 1;
        assert(each_id_once(init)) by {
            assert forall|a: int, b: int| 0 <= a < b < init.len() implies (
            #[trigger] init[a]).0 != (#[trigger] init[b]).0 by {
                assert(nodes[a].0 != nodes[b].0);
            }
        }
        lemma_changed_from(held, init, codes);
        let before = changed(held, init, codes);
        let all = changed(held, nodes, encoded);
        assert forall|k: int| 0 <= k < before.len() implies (#[trigger] before[k]).0
            != nodes[last].0 && nodes.contains(before[k]) by {
            let j = init.index_of(before[k]);
            assert(init.contains(before[k]));
            assert(nodes[j] == before[k]);
            assert(nodes[j].0 != nodes[last].0);
        }
        assert forall|k: int| 0 <= k < all.len() implies nodes.contains(#[trigger] all[k]) by {
            if k < before.len() {
                assert(all[k] == before[k]);
            } else {
                assert(nodes[last] == all[k]);
            }
        }
        assert forall|a: int, b: int| 0 <= a < b < all.len() implies (#[trigger] all[a]).0 != (
        #[trigger] all[b]).0 by {
            assert(all[a] == before[a]);
            if b < before.len() {
                assert(all[b] == before[b]);
            }
        }
        assert forall|i: int|
            0 <= i < nodes.len() && differs(
                held,
                (#[trigger] nodes[i]).0,
                encoded[i],
            ) implies all.contains(nodes[i]) by {
            if i < last {
                assert(init[i] == nodes[i] && codes[i] == encoded[i]);
                let k = before.index_of(init[i]);
                assert(before.contains(init[i]));
                assert(all[k] == nodes[i]);
            } else {
                assert(all[before.len() as int] == nodes[i]);
            }
        }
        assert forall|i: int, k: int|
            0 <= i < nodes.len() && !differs(held, (#[trigger] nodes[i]).0, encoded[i]) && 0 <= k
                < all.len() implies (#[trigger] all[k]).0 != nodes[i].0 by {
            if k < before.len() {
                assert(all[k] == before[k]);
                if i < last {
                    assert(init[i] == nodes[i] && codes[i] == encoded[i]);
                }
            } else {
                assert(i < last);
                assert(nodes[i].0 != nodes[last].0);
            }
        }
    }
}

/// What is sent of a walk that was announced is those of its nodes, in their order, that
/// the consumer does not hold as they are now, or that cannot be compared; and the focus
/// of the walk. Nothing is sent only if there is no such node and focus stayed.
pub proof fn law_a_walk_sends_what_differs(
    state: EmittedView,
    full: WireView,
    encoded: Seq<Option<Seq<u8>>>,
)
    requires
        encoded.len() == full.nodes.len(),
    ensures
        ({
            let news = full.nodes.zip_with(encoded).filter(
                |e: ((NodeId, ToolkitNode), Option<Seq<u8>>)|
                    e.1 is None || !state.nodes.contains_key(e.0.0) || state.nodes[e.0.0]
                        != e.1->0,
            ).map_values(|e: ((NodeId, ToolkitNode), Option<Seq<u8>>)| e.0);
            let update = sent(state, full, encoded);
            &&& !state.announced ==> update == Some(full)
            &&& state.announced ==> {
                &&& update is None <==> news.len() == 0 && state.focus == Some(full.focus)
                &&& update matches Some(wire) ==> wire.nodes == news && wire.tree is None
                    && wire.focus == full.focus && wire.tree_id == full.tree_id
            }
        }),
{
    lemma_changed_is_filter(state.nodes, full.nodes, encoded);
}

proof fn lemma_changed_is_filter(
    held: Map<NodeId, Seq<u8>>,
    nodes: Seq<(NodeId, ToolkitNode)>,
    encoded: Seq<Option<Seq<u8>>>,
)
    requires
        encoded.len() == nodes.len(),
    ensures
        changed(held, nodes, encoded) == nodes.zip_with(encoded).filter(
            |e: ((NodeId, ToolkitNode), Option<Seq<u8>>)|
                e.1 is None || !held.contains_key(e.0.0) || held[e.0.0] != e.1->0,
        ).map_values(|e: ((NodeId, ToolkitNode), Option<Seq<u8>>)| e.0),
    decreases nodes.len(),
{
    reveal(Seq::filter);
    let news = |e: ((NodeId, ToolkitNode), Option<Seq<u8>>)|
        e.1 is None || !held.contains_key(e.0.0) || held[e.0.0] != e.1->0;
    let first = |e: ((NodeId, ToolkitNode), Option<Seq<u8>>)| e.0;
    let both = nodes.zip_with(encoded);
    if nodes.len() > 0 {
        let (init, bytes) = (nodes.drop_last(), encoded.drop_last());
        lemma_changed_is_filter(held, init, bytes);
        assert(both.drop_last() =~= init.zip_with(bytes));
        assert(both.last() == (nodes.last(), encoded.last()));
        let before = both.drop_last().filter(news);
        if news(both.last()) {
            assert(before.push(both.last()).map_values(first) =~= before.map_values(first).push(
                nodes.last(),
            ));
        }
    } else {
        assert(both.filter(news).map_values(first) =~= Seq::empty());
    }
}

/// After a walk what the consumer holds is exactly the nodes of the walk that could be
/// serialized, as they are now; the tree is announced and focus is the walk's.
pub proof fn law_a_walk_is_remembered(
    state: EmittedView,
    full: WireView,
    encoded: Seq<Option<Seq<u8>>>,
    i: int,
    id: NodeId,
)
    requires
        encoded.len() == full.nodes.len(),
        each_id_once(full.nodes),
    ensures
        ({
            let after = after_walk(state, full, encoded);
            &&& after.announced
            &&& after.focus == Some(full.focus)
            &&& 0 <= i < full.nodes.len() ==> match encoded[i] {
                Some(bytes) => after.nodes.contains_key(full.nodes[i].0)
                    && after.nodes[full.nodes[i].0] == bytes,
                None => !after.nodes.contains_key(full.nodes[i].0),
            }
            &&& after.nodes.contains_key(id) ==> exists|k: int|
                0 <= k < full.nodes.len() && (#[trigger] full.nodes[k]).0 == id
        }),
{
    lemma_remembered_nodes(full.nodes, encoded, i, id);
}

proof fn lemma_remembered_nodes(
    nodes: Seq<(NodeId, ToolkitNode)>,
    encoded: Seq<Option<Seq<u8>>>,
    i: int,
    id: NodeId,
)
    requires
        encoded.len() == nodes.len(),
        each_id_once(nodes),
    ensures
        ({
            let held = remembered(nodes, encoded);
            &&& 0 <= i < nodes.len() ==> match encoded[i] {
                Some(bytes) => held.contains_key(nodes[i].0) && held[nodes[i].0] == bytes,
                None => !held.contains_key(nodes[i].0),
            }
            &&& held.contains_key(id) ==> exists|k: int|
                0 <= k < nodes.len() && (#[trigger] nodes[k]).0 == id
        }),
    decreases nodes.len(),
{
    if nodes.len() > 0 {
        let (init, bytes) = (nodes.drop_last(), encoded.drop_last());
        let n = nodes.len() - 1;
        assert forall|a: int, b: int| 0 <= a < b < init.len() implies (#[trigger] init[a]).0 != (
        #[trigger] init[b]).0 by {
            assert(nodes[a].0 != nodes[b].0);
        }
        lemma_remembered_nodes(init, bytes, i, id);
        lemma_remembered_nodes(init, bytes, i, nodes[n].0);
        let held = remembered(init, bytes);
        if held.contains_key(nodes[n].0) {
            let k = choose|k: int| 0 <= k < init.len() && (#[trigger] init[k]).0 == nodes[n].0;
            assert(nodes[k].0 != nodes[n].0);
        }
        if 0 <= i < n {
            assert(init[i] == nodes[i] && bytes[i] == encoded[i]);
            assert(nodes[i].0 != nodes[n].0);
        }
        if held.contains_key(id) {
            let k = choose|k: int| 0 <= k < init.len() && (#[trigger] init[k]).0 == id;
            assert(nodes[k].0 == id);
        } else if remembered(nodes, encoded).contains_key(id) {
            assert(nodes[n].0 == id);
        }
    }
}

/// A node that was read again is sent exactly if the consumer does not hold it as it is
/// now, or if it cannot be compared.
pub proof fn law_a_refresh_is_sent_if_it_differs(
    state: EmittedView,
    id: NodeId,
    encoded: Option<Seq<u8>>,
)
    ensures
        encoded is None ==> differs(state.nodes, id, encoded) && after_refresh(state, id, encoded)
            == state,
        encoded matches Some(bytes) ==> (differs(state.nodes, id, encoded)
            <==> !state.nodes.contains_key(id) || state.nodes[id] != bytes),
        encoded matches Some(bytes) ==> after_refresh(state, id, encoded).nodes
            == state.nodes.insert(id, bytes),
{
}

} // verus!
