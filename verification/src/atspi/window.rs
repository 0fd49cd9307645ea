//! Updates to one window's tree: the whole of it, a changed text, a refreshed
//! node, a chain spliced in.

use crate::atspi::ids::extends;
use crate::atspi::ids::ids_at;
use crate::atspi::ids::lemma_extends_transitive;
use crate::atspi::ids::lemma_with_paths_extends;
use crate::atspi::ids::lemma_with_paths_push;
use crate::atspi::ids::with_path;
use crate::atspi::ids::with_paths;
use crate::atspi::ids::NodeIdMap;
use crate::atspi::ids::PathSet;
use crate::atspi::mapping::apply_relations;
use crate::atspi::mapping::build_container;
use crate::atspi::mapping::build_node;
use crate::atspi::mapping::built;
use crate::atspi::mapping::container_of;
use crate::atspi::mapping::copy_extents;
use crate::atspi::mapping::empty_cache;
use crate::atspi::mapping::kept;
use crate::atspi::mapping::lemma_node_map_insert;
use crate::atspi::mapping::lemma_text_map_insert;
use crate::atspi::mapping::lemma_text_map_remove;
use crate::atspi::mapping::slice_of;
use crate::atspi::mapping::structured;
use crate::atspi::mapping::with_relations;
use crate::atspi::mapping::with_structure;
use crate::atspi::mapping::BuiltNode;
use crate::atspi::mapping::TextCacheView;
use crate::atspi::mapping::TextNodeCache;
use crate::atspi::mapping::WindowCache;
use crate::atspi::mapping::WindowCacheView;
use crate::atspi::node::CharExtent;
use crate::atspi::node::MirrorNode;
use crate::atspi::node::TextState;
use crate::atspi::text::build_text_runs;
use crate::atspi::text::run_layout;
use crate::atspi::text::run_nodes;
use crate::atspi::text::selection_of;
use crate::atspi::text::text_selection;
use crate::atspi::text::with_runs;
use crate::strings::chars_of;
use crate::strings::contains;
use crate::strings::copy_of;
use crate::strings::lemma_views_push;
use crate::strings::views;
use crate::tree::alike;
use crate::tree::copy_ids;
use crate::tree::ids_of;
use crate::tree::lemma_node_views_concat;
use crate::tree::lemma_node_views_push;
use crate::tree::list_view;
use crate::tree::node_ids;
use crate::tree::node_views;
use crate::tree::Node;
use crate::tree::NodeId;
use crate::tree::NodeView;
use crate::tree::TextSelection;
use crate::tree::Tree;
use crate::tree::TreeUpdate;
use crate::tree::TreeUpdateView;
use vstd::hash_map::StringHashMap;
use vstd::prelude::*;

verus! {

// ---------------------------------------------------------------- whole windows

/// The paths of walked objects.
pub open spec fn paths_of(nodes: Seq<MirrorNode>) -> Seq<Seq<char>> {
    nodes.map_values(|n: MirrorNode| n.path@)
}

/// The child lists of walked objects.
pub open spec fn child_lists(nodes: Seq<MirrorNode>) -> Seq<Seq<Seq<char>>> {
    nodes.map_values(|n: MirrorNode| views(n.children@))
}

/// What has been built so far: the ids in use, the nodes to emit, what the
/// window is remembered to hold, and the node that has focus, if one does.
pub struct Emission {
    pub ids: Map<Seq<char>, NodeId>,
    pub out: Seq<(NodeId, NodeView)>,
    pub cache: WindowCacheView,
    pub focus: Option<NodeId>,
}

/// The cache of texts after a node has been emitted: with the node's own text,
/// or, where a stale one must go, without any.
pub open spec fn text_after(
    text: Map<Seq<char>, TextCacheView>,
    path: Seq<char>,
    cache: Option<TextCacheView>,
    forget: bool,
) -> Map<Seq<char>, TextCacheView> {
    match cache {
        Some(c) => text.insert(path, c),
        None => if forget {
            text.remove(path)
        } else {
            text
        },
    }
}

/// What has been built after one more node, with the paths of its `children`.
pub open spec fn emit_node(
    state: Emission,
    node: MirrorNode,
    children: Seq<Seq<char>>,
    walked: Set<Seq<char>>,
    forget: bool,
) -> Emission {
    let ids = with_path(state.ids, node.path@);
    let id = ids[node.path@];
    let b = built(node, children, id, ids, walked);
    Emission {
        ids: b.ids,
        out: state.out.push((id, b.container)) + b.runs,
        cache: WindowCacheView {
            nodes: state.cache.nodes.insert(node.path@, b.container),
            text: text_after(state.cache.text, node.path@, b.cache, forget),
        },
        focus: if node.states.focused {
            Some(id)
        } else {
            state.focus
        },
    }
}

/// What has been built after all of `nodes`, in order, each with its list of
/// children.
pub open spec fn emit_all(
    start: Emission,
    nodes: Seq<MirrorNode>,
    lists: Seq<Seq<Seq<char>>>,
    walked: Set<Seq<char>>,
    forget: bool,
) -> Emission
    decreases nodes.len(),
{
    if nodes.len() == 0 {
        start
    } else {
        emit_node(
            emit_all(start, nodes.drop_last(), lists.drop_last(), walked, forget),
            nodes.last(),
            lists.last(),
            walked,
            forget,
        )
    }
}

/// A whole window, built from nothing but the ids already in use. Every walked
/// path has its id before the first node is built, so that a relation resolves
/// whether or not its target has been reached yet.
pub open spec fn window_emission(nodes: Seq<MirrorNode>, ids: Map<Seq<char>, NodeId>) -> Emission {
    emit_all(
        Emission {
            ids: with_paths(ids, paths_of(nodes)),
            out: Seq::empty(),
            cache: empty_cache(),
            focus: None,
        },
        nodes,
        child_lists(nodes),
        paths_of(nodes).to_set(),
        false,
    )
}

/// The update that carries a whole window: focus is on the node marked focused,
/// or on the root if none is.
pub open spec fn window_update(nodes: Seq<MirrorNode>, ids: Map<Seq<char>, NodeId>) -> TreeUpdateView {
    let emission = window_emission(nodes, ids);
    let root = with_paths(ids, paths_of(nodes))[nodes[0].path@];
    TreeUpdateView {
        nodes: emission.out,
        tree: Some(Tree { root }),
        focus: match emission.focus {
            Some(id) => id,
            None => root,
        },
    }
}

/// The set of the paths of walked objects.
fn walked_paths(nodes: &[MirrorNode]) -> (walked: PathSet)
    ensures
        walked@ == paths_of(nodes@).to_set(),
{
    let mut walked = PathSet::new();
    let ghost paths = paths_of(nodes@);
    for i in 0..nodes.len()
        invariant
            paths == paths_of(nodes@),
            walked@ == paths.take(i as int).to_set(),
    {
        walked.insert(nodes[i].path.as_str());
        proof {
            lemma_take_to_set(paths, i as int);
        }
    }
    assert(paths.take(nodes@.len() as int) =~= paths);
    walked
}

proof fn lemma_take_to_set(paths: Seq<Seq<char>>, i: int)
    requires
        0 <= i < paths.len(),
    ensures
        paths.take(i + 1).to_set() == paths.take(i).to_set().insert(paths[i]),
{
    let (shorter, longer) = (paths.take(i), paths.take(i + 1));
    assert forall|p: Seq<char>| longer.contains(p) <==> shorter.contains(p) || p == paths[i] by {
        if longer.contains(p) {
            let j = longer.index_of(p);
            if j < i {
                assert(shorter[j] == p);
            }
        }
        if shorter.contains(p) {
            let j = shorter.index_of(p);
            assert(longer[j] == p);
        }
        assert(longer[i] == paths[i]);
    }
    assert(longer.to_set() =~= shorter.to_set().insert(paths[i]));
}

/// Gives every walked object its id.
fn allocate_ids(nodes: &[MirrorNode], ids: &mut NodeIdMap)
    requires
        old(ids).wf(),
    ensures
        final(ids).wf(),
        final(ids)@ == with_paths(old(ids)@, paths_of(nodes@)),
{
    let ghost paths = paths_of(nodes@);
    assert(paths.take(0) =~= Seq::<Seq<char>>::empty());
    for i in 0..nodes.len()
        invariant
            paths == paths_of(nodes@),
            ids.wf(),
            ids@ == with_paths(old(ids)@, paths.take(i as int)),
    {
        ids.id_for(nodes[i].path.as_str());
        proof {
            lemma_with_paths_push(old(ids)@, paths.take(i as int), paths[i as int]);
            assert(paths.take(i + 1) =~= paths.take(i as int).push(paths[i as int]));
        }
    }
    assert(paths.take(nodes@.len() as int) =~= paths);
}

/// Builds one node and adds it to what is emitted and remembered; see
/// [`emit_node`].
fn emit(
    node: &MirrorNode,
    children: &[String],
    walked: &PathSet,
    forget: bool,
    ids: &mut NodeIdMap,
    cache: &mut WindowCache,
    out: &mut Vec<(NodeId, Node)>,
    focus: Option<NodeId>,
) -> (now: (NodeId, Option<NodeId>))
    requires
        old(ids).wf(),
    ensures
        final(ids).wf(),
        ({
            let before = Emission {
                ids: old(ids)@,
                out: node_views(old(out)@),
                cache: old(cache)@,
                focus,
            };
            let after = emit_node(before, *node, views(children@), walked@, forget);
            &&& final(ids)@ == after.ids
            &&& node_views(final(out)@) == after.out
            &&& final(cache)@ == after.cache
            &&& now.0 == with_path(old(ids)@, node.path@)[node.path@]
            &&& now.1 == after.focus
        }),
{
    let id: NodeId = ids.id_for(node.path.as_str());
    let result: BuiltNode = build_node(node, children, id, ids, walked);
    let ghost b = built(
        *node,
        views(children@),
        id,
        with_path(old(ids)@, node.path@),
        walked@,
    );
    let BuiltNode { container, runs, cache: text } = result;
    proof {
        lemma_node_map_insert(cache.nodes@, node.path@, container);
        lemma_node_views_push(out@, (id, container));
        lemma_node_views_concat(out@.push((id, container)), runs@);
    }
    let copy: Node = container.clone();
    proof {
        lemma_node_map_insert(cache.nodes@, node.path@, copy);
    }
    cache.nodes.insert(node.path.clone(), copy);
    out.push((id, container));
    let mut runs: Vec<(NodeId, Node)> = runs;
    out.append(&mut runs);
    match text {
        Some(text) => {
            proof {
                lemma_text_map_insert(cache.text@, node.path@, text);
            }
            cache.text.insert(node.path.clone(), text);
        },
        None => {
            if forget {
                proof {
                    lemma_text_map_remove(cache.text@, node.path@);
                }
                cache.text.remove(node.path.as_str());
            }
        },
    }
    let now: Option<NodeId> = if node.states.focused {
        Some(id)
    } else {
        focus
    };
    (id, now)
}

/// Builds a whole window's update. `nodes[0]` is the window root. Text nodes
/// have their text runs under them, and `cache` afterwards holds exactly what
/// was emitted.
pub fn build_window_update(
    nodes: &[MirrorNode],
    ids: &mut NodeIdMap,
    cache: &mut WindowCache,
) -> (update: TreeUpdate)
    requires
        old(ids).wf(),
        nodes@.len() > 0,
    ensures
        final(ids).wf(),
        final(ids)@ == window_emission(nodes@, old(ids)@).ids,
        final(cache)@ == window_emission(nodes@, old(ids)@).cache,
        update@ == window_update(nodes@, old(ids)@),
{
    let walked: PathSet = walked_paths(nodes);
    allocate_ids(nodes, ids);
    let ghost allocated = ids@;
    let root: NodeId = ids.id_for(nodes[0].path.as_str());
    proof {
        lemma_with_paths_extends(old(ids)@, paths_of(nodes@));
        assert(paths_of(nodes@)[0] == nodes@[0].path@);
        assert(allocated.contains_key(nodes@[0].path@));
    }
    let mut out: Vec<(NodeId, Node)> = Vec::new();
    let mut fresh: WindowCache = WindowCache::new();
    let mut focus: Option<NodeId> = None;
    let ghost start = Emission {
        ids: allocated,
        out: Seq::empty(),
        cache: empty_cache(),
        focus: None,
    };
    let ghost lists = child_lists(nodes@);
    assert(node_views(out@) =~= Seq::<(NodeId, NodeView)>::empty());
    let mut i: usize = 0;
    while i < nodes.len()
        invariant
            i <= nodes.len(),
            lists == child_lists(nodes@),
            walked@ == paths_of(nodes@).to_set(),
            ids.wf(),
            ({
                let state = emit_all(
                    start,
                    nodes@.take(i as int),
                    lists.take(i as int),
                    walked@,
                    false,
                );
                &&& ids@ == state.ids
                &&& node_views(out@) == state.out
                &&& fresh@ == state.cache
                &&& focus == state.focus
            }),
        decreases nodes.len() - i,
    {
        assert(nodes@.take(i + 1).drop_last() =~= nodes@.take(i as int));
        assert(lists.take(i + 1).drop_last() =~= lists.take(i as int));
        let (_, now) = emit(
            &nodes[i],
            nodes[i].children.as_slice(),
            &walked,
            false,
            ids,
            &mut fresh,
            &mut out,
            focus,
        );
        focus = now;
        i = i + 1;
    }
    assert(nodes@.take(i as int) =~= nodes@);
    assert(lists.take(i as int) =~= lists);
    *cache = fresh;
    let focus: NodeId = match focus {
        Some(id) => id,
        None => root,
    };
    TreeUpdate { nodes: out, tree: Some(Tree { root }), focus }
}

/// A focus-only change: moves focus without touching any node.
pub fn focus_update(focus: NodeId) -> (update: TreeUpdate)
    ensures
        update@ == (TreeUpdateView { nodes: Seq::empty(), tree: None, focus }),
{
    let update = TreeUpdate { nodes: Vec::new(), tree: None, focus };
    assert(update@.nodes =~= Seq::<(NodeId, NodeView)>::empty());
    update
}

/// The element children each walked node contributes to the emitted tree, by
/// path: those that were walked themselves.
pub open spec fn emitted_lists(nodes: Seq<MirrorNode>, walked: Set<Seq<char>>) -> Map<
    Seq<char>,
    Seq<Seq<char>>,
>
    decreases nodes.len(),
{
    if nodes.len() == 0 {
        Map::empty()
    } else {
        emitted_lists(nodes.drop_last(), walked).insert(
            nodes.last().path@,
            kept(views(nodes.last().children@), walked),
        )
    }
}

/// The contents of a map of path lists.
pub open spec fn list_map(lists: Map<Seq<char>, Vec<String>>) -> Map<Seq<char>, Seq<Seq<char>>> {
    lists.map_values(|l: Vec<String>| views(l@))
}

/// Those of `paths` that are in `set`, in order.
fn keep(paths: &[String], set: &PathSet) -> (list: Vec<String>)
    ensures
        views(list@) == kept(views(paths@), set@),
{
    let mut list: Vec<String> = Vec::new();
    assert(views(list@) =~= Seq::<Seq<char>>::empty());
    let ghost all = views(paths@);
    for i in 0..paths.len()
        invariant
            all == views(paths@),
            views(list@) == kept(all.take(i as int), set@),
    {
        assert(all.take(i + 1).drop_last() =~= all.take(i as int));
        assert(all.take(i + 1).last() == paths@[i as int]@);
        if set.contains(paths[i].as_str()) {
            proof {
                lemma_views_push(list@, paths@[i as int]);
            }
            list.push(paths[i].clone());
        }
    }
    assert(all.take(paths@.len() as int) =~= all);
    list
}

/// The element children each walked node contributes to the emitted tree; see
/// [`emitted_lists`].
pub fn emitted_children(nodes: &[MirrorNode]) -> (children: StringHashMap<Vec<String>>)
    ensures
        list_map(children@) == emitted_lists(nodes@, paths_of(nodes@).to_set()),
{
    let walked: PathSet = walked_paths(nodes);
    let mut children: StringHashMap<Vec<String>> = StringHashMap::new();
    assert(list_map(children@) =~= Map::<Seq<char>, Seq<Seq<char>>>::empty());
    for i in 0..nodes.len()
        invariant
            walked@ == paths_of(nodes@).to_set(),
            list_map(children@) == emitted_lists(nodes@.take(i as int), walked@),
    {
        assert(nodes@.take(i + 1).drop_last() =~= nodes@.take(i as int));
        let list: Vec<String> = keep(nodes[i].children.as_slice(), &walked);
        let ghost (before, added) = (children@, list);
        children.insert(nodes[i].path.clone(), list);
        assert(list_map(children@) =~= list_map(before).insert(
            nodes@[i as int].path@,
            views(added@),
        ));
    }
    assert(nodes@.take(nodes@.len() as int) =~= nodes@);
    children
}

// ---------------------------------------------------------------- splicing

/// A chain spliced into a window: the update, and the element children each
/// chain node was emitted with, by path.
pub struct SpliceResult {
    pub update: TreeUpdate,
    pub children: Vec<(String, Vec<String>)>,
}

/// The children that node `i` of a chain is emitted with. The ancestor keeps
/// those the consumer has; a node further down keeps those of its own that are
/// known or in the chain. Each has the next node of the chain among them.
pub open spec fn spliced_children(
    chain: Seq<MirrorNode>,
    ancestor_children: Seq<Seq<char>>,
    known: Set<Seq<char>>,
    i: int,
) -> Seq<Seq<char>> {
    let own = if i == 0 {
        ancestor_children
    } else {
        kept(views(chain[i].children@), known.union(paths_of(chain).to_set()))
    };
    if i + 1 < chain.len() && !own.contains(chain[i + 1].path@) {
        own.push(chain[i + 1].path@)
    } else {
        own
    }
}

/// The children of every node of a chain.
pub open spec fn spliced_lists(
    chain: Seq<MirrorNode>,
    ancestor_children: Seq<Seq<char>>,
    known: Set<Seq<char>>,
) -> Seq<Seq<Seq<char>>> {
    Seq::new(chain.len(), |i: int| spliced_children(chain, ancestor_children, known, i))
}

/// Everything a spliced node may name as a child.
pub open spec fn splice_scope(
    chain: Seq<MirrorNode>,
    ancestor_children: Seq<Seq<char>>,
    known: Set<Seq<char>>,
) -> Set<Seq<char>> {
    known.union(paths_of(chain).to_set()).union(ancestor_children.to_set())
}

/// What a chain adds to a window.
pub open spec fn splice_emission(
    chain: Seq<MirrorNode>,
    ancestor_children: Seq<Seq<char>>,
    known: Set<Seq<char>>,
    ids: Map<Seq<char>, NodeId>,
    cache: WindowCacheView,
) -> Emission {
    emit_all(
        Emission {
            ids: with_paths(ids, paths_of(chain)),
            out: Seq::empty(),
            cache,
            focus: None,
        },
        chain,
        spliced_lists(chain, ancestor_children, known),
        splice_scope(chain, ancestor_children, known),
        true,
    )
}

/// The contents of a list of paths with their child lists.
pub open spec fn entry_views(entries: Seq<(String, Vec<String>)>) -> Seq<
    (Seq<char>, Seq<Seq<char>>),
> {
    entries.map_values(|e: (String, Vec<String>)| (e.0@, views(e.1@)))
}

/// The child list of node `index` of a chain; see [`spliced_children`].
fn chain_children(
    chain: &[MirrorNode],
    ancestor_children: &[String],
    scope: &PathSet,
    index: usize,
    Ghost(known): Ghost<Set<Seq<char>>>,
) -> (list: Vec<String>)
    requires
        index < chain@.len(),
        scope@ == known.union(paths_of(chain@).to_set()),
    ensures
        views(list@) == spliced_children(chain@, views(ancestor_children@), known, index as int),
{
    let mut list: Vec<String> = if index == 0 {
        copy_of(ancestor_children)
    } else {
        keep(chain[index].children.as_slice(), scope)
    };
    if index + 1 < chain.len() {
        if !contains(list.as_slice(), chain[index + 1].path.as_str()) {
            proof {
                lemma_views_push(list@, chain@[index + 1].path);
            }
            list.push(chain[index + 1].path.clone());
        }
    }
    list
}

/// Splices a freshly read ancestor chain into a window. `chain[0]` is the fresh
/// read of an ancestor the window has, each following node a child of the one
/// before, the last the new focus. A lazily filled container's huge fresh child
/// list can neither bloat nor orphan the consumer's tree; see
/// [`spliced_children`]. `None` for a chain shorter than two nodes.
pub fn splice_chain_update(
    chain: &[MirrorNode],
    ancestor_children: &[String],
    known: &PathSet,
    ids: &mut NodeIdMap,
    cache: &mut WindowCache,
) -> (result: Option<SpliceResult>)
    requires
        old(ids).wf(),
    ensures
        final(ids).wf(),
        result is Some <==> chain@.len() >= 2,
        result is None ==> final(ids)@ == old(ids)@ && final(cache)@ == old(cache)@,
        result matches Some(spliced) ==> {
            let ancestors = views(ancestor_children@);
            let emission = splice_emission(chain@, ancestors, known@, old(ids)@, old(cache)@);
            &&& final(ids)@ == emission.ids
            &&& final(cache)@ == emission.cache
            &&& spliced.update@ == (TreeUpdateView {
                nodes: emission.out,
                tree: None,
                focus: final(ids)@[chain@.last().path@],
            })
            &&& entry_views(spliced.children@) == Seq::new(
                chain@.len(),
                |i: int|
                    (chain@[i].path@, spliced_children(chain@, ancestors, known@, i)),
            )
        },
{
    if chain.len() < 2 {
        return None;
    }
    let ghost ancestors = views(ancestor_children@);
    let ghost lists = spliced_lists(chain@, ancestors, known@);
    let scope: PathSet = union_with_paths(known, chain);
    let mut walked: PathSet = union_with_paths(known, chain);
    walked.insert_all(ancestor_children);
    allocate_ids(chain, ids);
    let ghost start = Emission {
        ids: ids@,
        out: Seq::empty(),
        cache: cache@,
        focus: None,
    };
    proof {
        lemma_with_paths_extends(old(ids)@, paths_of(chain@));
    }
    let mut out: Vec<(NodeId, Node)> = Vec::new();
    let mut children: Vec<(String, Vec<String>)> = Vec::new();
    let mut focused: Option<NodeId> = None;
    let mut focus: NodeId = NodeId(0);
    assert(node_views(out@) =~= Seq::<(NodeId, NodeView)>::empty());
    let mut i: usize = 0;
    while i < chain.len()
        invariant
            i <= chain.len(),
            ancestors == views(ancestor_children@),
            lists == spliced_lists(chain@, ancestors, known@),
            scope@ == known@.union(paths_of(chain@).to_set()),
            walked@ == splice_scope(chain@, ancestors, known@),
            ids.wf(),
            i > 0 ==> ids@.contains_key(chain@[i - 1].path@) && focus == ids@[chain@[i
                - 1].path@],
            ({
                let state = emit_all(
                    start,
                    chain@.take(i as int),
                    lists.take(i as int),
                    walked@,
                    true,
                );
                &&& ids@ == state.ids
                &&& node_views(out@) == state.out
                &&& cache@ == state.cache
                &&& focused == state.focus
            }),
            children@.len() == i,
            forall|j: int|
                0 <= j < i ==> (#[trigger] children@[j]).0@ == chain@[j].path@ && views(
                    children@[j].1@,
                ) == lists[j],
        decreases chain.len() - i,
    {
        assert(chain@.take(i + 1).drop_last() =~= chain@.take(i as int));
        assert(lists.take(i + 1).drop_last() =~= lists.take(i as int));
        let list: Vec<String> = chain_children(
            chain,
            ancestor_children,
            &scope,
            i,
            Ghost(known@),
        );
        let ghost before = ids@;
        let (id, now) = emit(
            &chain[i],
            list.as_slice(),
            &walked,
            true,
            ids,
            cache,
            &mut out,
            focused,
        );
        proof {
            let path = chain@[i as int].path@;
            lemma_built_extends(chain@[i as int], lists[i as int], id, with_path(before, path), walked@);
            assert(with_path(before, path).contains_key(path));
        }
        focused = now;
        focus = id;
        children.push((chain[i].path.clone(), list));
        i = i + 1;
    }
    assert(chain@.take(i as int) =~= chain@);
    assert(lists.take(i as int) =~= lists);
    assert(entry_views(children@) =~= Seq::new(
        chain@.len(),
        |i: int| (chain@[i].path@, spliced_children(chain@, ancestors, known@, i)),
    ));
    Some(SpliceResult { update: TreeUpdate { nodes: out, tree: None, focus }, children })
}

/// Building a node only adds ids.
pub proof fn lemma_built_extends(
    node: MirrorNode,
    children: Seq<Seq<char>>,
    id: NodeId,
    ids: Map<Seq<char>, NodeId>,
    walked: Set<Seq<char>>,
)
    ensures
        extends(built(node, children, id, ids, walked).ids, ids),
{
    let middle = with_paths(ids, kept(children, walked));
    lemma_with_paths_extends(ids, kept(children, walked));
    match node.text {
        Some(state) => {
            let paths = crate::atspi::text::paths_of_runs(
                node.path@,
                crate::lines::lines(state.text@).len(),
            );
            lemma_with_paths_extends(middle, paths);
            lemma_extends_transitive(ids, middle, with_runs(middle, node.path@, state.text@));
        },
        None => {},
    }
}

/// `known` with the paths of `nodes` added.
fn union_with_paths(known: &PathSet, nodes: &[MirrorNode]) -> (set: PathSet)
    ensures
        set@ == known@.union(paths_of(nodes@).to_set()),
{
    let mut set: PathSet = known.copy();
    let ghost paths = paths_of(nodes@);
    assert(set@ =~= known@.union(paths.take(0).to_set()));
    for i in 0..nodes.len()
        invariant
            paths == paths_of(nodes@),
            set@ == known@.union(paths.take(i as int).to_set()),
    {
        set.insert(nodes[i].path.as_str());
        proof {
            lemma_take_to_set(paths, i as int);
            assert(set@ =~= known@.union(paths.take(i + 1).to_set()));
        }
    }
    assert(paths.take(nodes@.len() as int) =~= paths);
    set
}

// ---------------------------------------------------------------- merging

/// Whether the node at `i` is the first of `nodes` with that id.
pub open spec fn first_with_id(nodes: Seq<(NodeId, NodeView)>, id: NodeId, i: int) -> bool {
    &&& 0 <= i < nodes.len()
    &&& nodes[i].0 == id
    &&& forall|j: int| 0 <= j < i ==> (#[trigger] nodes[j]).0 != id
}

/// Where the first of `nodes` with an id is, if there is one.
pub open spec fn place_of(nodes: Seq<(NodeId, NodeView)>, id: NodeId) -> int {
    choose|i: int| #[trigger] first_with_id(nodes, id, i)
}

/// `nodes` with one more: in place of the first with the same id, or at the end.
pub open spec fn with_entry(nodes: Seq<(NodeId, NodeView)>, entry: (NodeId, NodeView)) -> Seq<
    (NodeId, NodeView),
> {
    if exists|i: int| #[trigger] first_with_id(nodes, entry.0, i) {
        nodes.update(place_of(nodes, entry.0), entry)
    } else {
        nodes.push(entry)
    }
}

/// `nodes` with all of `more`, in order.
pub open spec fn with_entries(
    nodes: Seq<(NodeId, NodeView)>,
    more: Seq<(NodeId, NodeView)>,
) -> Seq<(NodeId, NodeView)>
    decreases more.len(),
{
    if more.len() == 0 {
        nodes
    } else {
        with_entry(with_entries(nodes, more.drop_last()), more.last())
    }
}

/// Where the first of `nodes` with an id is, or how many there are if none has.
fn find_id(nodes: &[(NodeId, Node)], id: NodeId) -> (found: usize)
    ensures
        found <= nodes@.len(),
        found < nodes@.len() ==> first_with_id(node_views(nodes@), id, found as int),
        found == nodes@.len() ==> forall|j: int|
            0 <= j < nodes@.len() ==> (#[trigger] node_views(nodes@)[j]).0 != id,
{
    let ghost all = node_views(nodes@);
    let mut i: usize = 0;
    while i < nodes.len()
        invariant
            all == node_views(nodes@),
            i <= nodes.len(),
            forall|j: int| 0 <= j < i ==> (#[trigger] all[j]).0 != id,
        decreases nodes.len() - i,
    {
        assert(all[i as int].0 == nodes@[i as int].0);
        if nodes[i].0 == id {
            return i;
        }
        i = i + 1;
    }
    i
}

/// Puts one node among `nodes`; see [`with_entry`].
fn put(nodes: &mut Vec<(NodeId, Node)>, id: NodeId, node: Node)
    ensures
        node_views(final(nodes)@) == with_entry(node_views(old(nodes)@), (id, node@)),
{
    let ghost before = node_views(nodes@);
    let i: usize = find_id(nodes.as_slice(), id);
    if i < nodes.len() {
        proof {
            let k = place_of(before, id);
            assert(first_with_id(before, id, k));
            assert(before[k].0 == id && before[i as int].0 == id);
            assert(k == i as int);
        }
        let ghost entry = (id, node@);
        assert(first_with_id(before, entry.0, i as int));
        nodes.set(i, (id, node));
        assert(node_views(nodes@) =~= before.update(i as int, (id, node@)));
    } else {
        proof {
            assert(!exists|k: int| first_with_id(before, id, k));
            lemma_node_views_push(nodes@, (id, node));
        }
        nodes.push((id, node));
    }
}

/// Merges a splice's update into a whole window's: nodes with an id that is
/// there are replaced, new ones appended, and the splice's focus wins. The tree
/// is untouched.
pub fn merge_update(full: &mut TreeUpdate, splice: TreeUpdate)
    ensures
        final(full)@ == (TreeUpdateView {
            nodes: with_entries(old(full)@.nodes, splice@.nodes),
            tree: old(full)@.tree,
            focus: splice.focus,
        }),
{
    let ghost more = splice@.nodes;
    let ghost first = full@.nodes;
    let ghost tree = full.tree;
    let mut i: usize = 0;
    while i < splice.nodes.len()
        invariant
            i <= splice.nodes.len(),
            more == node_views(splice.nodes@),
            full.tree == tree,
            node_views(full.nodes@) == with_entries(first, more.take(i as int)),
        decreases splice.nodes.len() - i,
    {
        assert(more.take(i + 1).drop_last() =~= more.take(i as int));
        assert(more.take(i + 1).last() == (splice.nodes@[i as int].0, splice.nodes@[i as int].1@));
        let id: NodeId = splice.nodes[i].0;
        let node: Node = splice.nodes[i].1.clone();
        put(&mut full.nodes, id, node);
        i = i + 1;
    }
    assert(more.take(i as int) =~= more);
    full.focus = splice.focus;
}

// ---------------------------------------------------------------- refreshing

/// The ids of the text runs under a node.
pub open spec fn run_ids(text: Map<Seq<char>, TextCacheView>, path: Seq<char>) -> Seq<NodeId> {
    if text.contains_key(path) {
        node_ids(text[path].runs)
    } else {
        Seq::empty()
    }
}

/// A node with its semantics read afresh: the children are those the window
/// has, and the selection is the one it had.
pub open spec fn refreshed(
    fresh: MirrorNode,
    children: Seq<Seq<char>>,
    ids: Map<Seq<char>, NodeId>,
    cache: WindowCacheView,
) -> NodeView {
    with_structure(
        with_relations(container_of(fresh), fresh.relations@, ids),
        ids_at(with_paths(ids, children), children) + run_ids(cache.text, fresh.path@),
        cache.nodes[fresh.path@].props.text_selection,
    )
}

/// The ids of `paths`, allocating one where there is none.
fn ids_for(paths: &[String], ids: &mut NodeIdMap) -> (list: Vec<NodeId>)
    requires
        old(ids).wf(),
    ensures
        final(ids).wf(),
        final(ids)@ == with_paths(old(ids)@, views(paths@)),
        list@ == ids_at(final(ids)@, views(paths@)),
{
    let mut list: Vec<NodeId> = Vec::new();
    let ghost all = views(paths@);
    assert(all.take(0) =~= Seq::<Seq<char>>::empty());
    for i in 0..paths.len()
        invariant
            all == views(paths@),
            ids.wf(),
            ids@ == with_paths(old(ids)@, all.take(i as int)),
            list@ == ids_at(ids@, all.take(i as int)),
    {
        let ghost before = ids@;
        let id: NodeId = ids.id_for(paths[i].as_str());
        list.push(id);
        proof {
            let (seen, more) = (all.take(i as int), all.take(i + 1));
            lemma_with_paths_push(old(ids)@, seen, all[i as int]);
            assert(more =~= seen.push(all[i as int]));
            lemma_with_paths_extends(old(ids)@, seen);
            assert forall|j: int| 0 <= j < more.len() implies #[trigger] list@[j]
                == ids@[more[j]] by {
                if j < seen.len() {
                    assert(seen.contains(seen[j]));
                    assert(before.contains_key(seen[j]));
                    assert(list@[j] == ids_at(before, seen)[j]);
                }
            }
            assert(list@ =~= ids_at(ids@, more));
        }
    }
    assert(all.take(paths@.len() as int) =~= all);
    list
}

/// Rebuilds one node's semantics from a fresh read, and returns the node to emit,
/// or `None` when nothing changed or the window does not have it.
///
/// A refresh changes semantics only, never structure: the children are
/// `emitted_children` and the text runs the node has, so the fresh read's own
/// child list is ignored and allocates no ids.
pub fn refresh_node(
    fresh: &MirrorNode,
    id: NodeId,
    emitted_children: &[String],
    ids: &mut NodeIdMap,
    cache: &mut WindowCache,
) -> (result: Option<(NodeId, Node)>)
    requires
        old(ids).wf(),
    ensures
        final(ids).wf(),
        ({
            let path = fresh.path@;
            let known = old(cache)@.nodes.contains_key(path);
            let children = views(emitted_children@);
            let node = refreshed(*fresh, children, old(ids)@, old(cache)@);
            let changed = known && !alike(node, old(cache)@.nodes[path]);
            &&& final(ids)@ == if known {
                with_paths(old(ids)@, children)
            } else {
                old(ids)@
            }
            &&& final(cache)@ == if changed {
                WindowCacheView {
                    nodes: old(cache)@.nodes.insert(path, node),
                    ..old(cache)@
                }
            } else {
                old(cache)@
            }
            &&& result is Some <==> changed
            &&& result matches Some((to, emitted)) ==> to == id && emitted@ == node
        }),
{
    let ghost path = fresh.path@;
    let last: Node = match cache.nodes.get(fresh.path.as_str()) {
        Some(node) => node.clone(),
        None => {
            return None;
        },
    };
    let mut runs: Vec<NodeId> = match cache.text.get(fresh.path.as_str()) {
        Some(text) => ids_of(text.runs.as_slice()),
        None => Vec::new(),
    };
    assert(runs@ =~= run_ids(cache@.text, path));
    let mut container: Node = build_container(fresh);
    apply_relations(&mut container, fresh.relations.as_slice(), ids);
    let mut children: Vec<NodeId> = ids_for(emitted_children, ids);
    children.append(&mut runs);
    let container: Node = structured(container, children, last.props.text_selection);
    if container.same(&last) {
        return None;
    }
    let copy: Node = container.clone();
    proof {
        lemma_node_map_insert(cache.nodes@, path, copy);
    }
    cache.nodes.insert(fresh.path.clone(), copy);
    Some((id, container))
}

// ---------------------------------------------------------------- texts

/// The new runs that differ from the old run in the same place.
pub open spec fn changed_runs(
    runs: Seq<(NodeId, NodeView)>,
    last: Seq<(NodeId, NodeView)>,
) -> Seq<(NodeId, NodeView)>
    decreases runs.len(),
{
    if runs.len() == 0 {
        Seq::empty()
    } else {
        let before = changed_runs(runs.drop_last(), last);
        let i = runs.len() - 1;
        if i < last.len() && last[i].0 == runs[i].0 && alike(last[i].1, runs[i].1) {
            before
        } else {
            before.push(runs[i])
        }
    }
}

/// The extents a text is laid out by: those just read, or else the ones it had,
/// as long as there is one for each character.
pub open spec fn effective_extents(
    fresh: Option<Seq<CharExtent>>,
    last: Option<Seq<CharExtent>>,
    text: Seq<char>,
) -> Option<Seq<CharExtent>> {
    match fresh {
        Some(_) => fresh,
        None => match last {
            Some(all) if all.len() == text.len() => last,
            _ => None,
        },
    }
}

/// What is to be emitted and remembered of a text.
pub struct TextRebuild {
    pub ids: Map<Seq<char>, NodeId>,
    pub changed: Seq<(NodeId, NodeView)>,
    pub cache: WindowCacheView,
}

/// A text rebuilt from a fresh state: the container if it changed, then the runs
/// that did.
pub open spec fn text_rebuilt(
    cache: WindowCacheView,
    path: Seq<char>,
    state: TextState,
    ids: Map<Seq<char>, NodeId>,
) -> TextRebuild {
    if cache.text.contains_key(path) && cache.nodes.contains_key(path) {
        let text = cache.text[path];
        let last = cache.nodes[path];
        let extents = effective_extents(list_view(state.extents), text.extents, state.text@);
        let after = with_runs(ids, path, state.text@);
        let runs = run_nodes(after, path, state.text@, extents, text.container_bounds);
        let layout = run_layout(after, path, state.text@);
        let parent = with_structure(
            last,
            text.element_children + node_ids(runs),
            selection_of(state.caret, state.selection, layout),
        );
        let head = if alike(parent, last) {
            Seq::empty()
        } else {
            seq![(text.node_id, parent)]
        };
        TextRebuild {
            ids: after,
            changed: head + changed_runs(runs, text.runs),
            cache: WindowCacheView {
                nodes: cache.nodes.insert(path, parent),
                text: cache.text.insert(path, TextCacheView { runs, layout, extents, ..text }),
            },
        }
    } else {
        TextRebuild { ids, changed: Seq::empty(), cache }
    }
}

/// See [`effective_extents`].
fn extents_for(
    fresh: &Option<Vec<CharExtent>>,
    last: &Option<Vec<CharExtent>>,
    text: &str,
) -> (extents: Option<Vec<CharExtent>>)
    ensures
        list_view(extents) == effective_extents(list_view(*fresh), list_view(*last), text@),
{
    if fresh.is_some() {
        return copy_extents(fresh);
    }
    match last {
        Some(all) => {
            let chars: Vec<char> = chars_of(text);
            if all.len() == chars.len() {
                copy_extents(last)
            } else {
                None
            }
        },
        None => None,
    }
}

/// Appends to `changed` the runs that differ; see [`changed_runs`].
fn push_changed_runs(
    changed: &mut Vec<(NodeId, Node)>,
    runs: &[(NodeId, Node)],
    last: &[(NodeId, Node)],
)
    ensures
        node_views(final(changed)@) == node_views(old(changed)@) + changed_runs(
            node_views(runs@),
            node_views(last@),
        ),
{
    let ghost (first, all, known) = (node_views(changed@), node_views(runs@), node_views(last@));
    assert(first + changed_runs(all.take(0), known) =~= first);
    let mut i: usize = 0;
    while i < runs.len()
        invariant
            i <= runs.len(),
            all == node_views(runs@),
            known == node_views(last@),
            node_views(changed@) == first + changed_runs(all.take(i as int), known),
        decreases runs.len() - i,
    {
        let ghost before = changed_runs(all.take(i as int), known);
        assert(all.take(i + 1).drop_last() =~= all.take(i as int));
        assert(all.take(i + 1)[i as int] == (runs@[i as int].0, runs@[i as int].1@));
        let kept_as_is: bool = i < last.len() && last[i].0 == runs[i].0 && last[i].1.same(
            &runs[i].1,
        );
        if !kept_as_is {
            let entry: (NodeId, Node) = (runs[i].0, runs[i].1.clone());
            proof {
                lemma_node_views_push(changed@, entry);
                assert(first + before.push((entry.0, entry.1@)) =~= (first + before).push(
                    (entry.0, entry.1@),
                ));
            }
            changed.push(entry);
        }
        i = i + 1;
    }
    assert(all.take(i as int) =~= all);
}

/// Rebuilds one text from a fresh state against what is remembered of it, and
/// returns only the nodes that changed: the container when its selection or its
/// set of runs did, and each run whose content differs. Nothing returned means
/// that nothing changed.
pub fn rebuild_text_node(
    cache: &mut WindowCache,
    parent_path: &str,
    state: &TextState,
    ids: &mut NodeIdMap,
) -> (changed: Vec<(NodeId, Node)>)
    requires
        old(ids).wf(),
    ensures
        final(ids).wf(),
        ({
            let rebuilt = text_rebuilt(old(cache)@, parent_path@, *state, old(ids)@);
            &&& final(ids)@ == rebuilt.ids
            &&& node_views(changed@) == rebuilt.changed
            &&& final(cache)@ == rebuilt.cache
        }),
{
    let ghost path = parent_path@;
    let mut changed: Vec<(NodeId, Node)> = Vec::new();
    assert(node_views(changed@) =~= Seq::<(NodeId, NodeView)>::empty());
    let text: &TextNodeCache = match cache.text.get(parent_path) {
        Some(text) => text,
        None => {
            return changed;
        },
    };
    let last: Node = match cache.nodes.get(parent_path) {
        Some(node) => node.clone(),
        None => {
            return changed;
        },
    };
    let extents: Option<Vec<CharExtent>> = extents_for(
        &state.extents,
        &text.extents,
        state.text.as_str(),
    );
    let (runs, layout) = build_text_runs(
        parent_path,
        state.text.as_str(),
        slice_of(&extents),
        text.container_bounds,
        ids,
    );
    let mut children: Vec<NodeId> = copy_ids(text.element_children.as_slice());
    let element_children: Vec<NodeId> = copy_ids(text.element_children.as_slice());
    let mut under: Vec<NodeId> = ids_of(runs.as_slice());
    children.append(&mut under);
    let selection: Option<TextSelection> = text_selection(state, layout.as_slice());
    let parent: Node = structured(last.clone(), children, selection);
    let node_id: NodeId = text.node_id;
    if !parent.same(&last) {
        let entry: (NodeId, Node) = (node_id, parent.clone());
        proof {
            lemma_node_views_push(changed@, entry);
        }
        changed.push(entry);
    }
    push_changed_runs(&mut changed, runs.as_slice(), text.runs.as_slice());
    let rebuilt = TextNodeCache {
        node_id,
        element_children,
        runs,
        layout,
        caret_enabled: text.caret_enabled,
        extents,
        container_bounds: text.container_bounds,
    };
    proof {
        lemma_node_map_insert(cache.nodes@, path, parent);
        lemma_text_map_insert(cache.text@, path, rebuilt);
    }
    cache.nodes.insert(parent_path.to_owned(), parent);
    cache.text.insert(parent_path.to_owned(), rebuilt);
    changed
}

} // verus!
