//! What holds of every update to a window's tree.

use crate::atspi::ids::all_known;
use crate::atspi::ids::extends;
use crate::atspi::ids::id_table;
use crate::atspi::ids::ids_at;
use crate::atspi::ids::lemma_with_paths_concat;
use crate::atspi::ids::lemma_with_paths_extends;
use crate::atspi::ids::lemma_with_paths_known;
use crate::atspi::ids::lemma_with_paths_table;
use crate::atspi::ids::with_paths;
use crate::atspi::mapping::built;
use crate::atspi::mapping::container_of;
use crate::atspi::mapping::empty_cache;
use crate::atspi::mapping::kept;
use crate::atspi::mapping::properties_of;
use crate::atspi::mapping::resolved;
use crate::atspi::mapping::with_relations;
use crate::atspi::mapping::with_structure;
use crate::atspi::mapping::WindowCacheView;
use crate::atspi::node::has_caret;
use crate::atspi::node::CharExtent;
use crate::atspi::node::MirrorNode;
use crate::atspi::node::Relation;
use crate::atspi::node::TextState;
use crate::atspi::text::law_run_paths_are_distinct;
use crate::atspi::text::law_run_paths_are_not_object_paths;
use crate::atspi::text::lemma_position_in_layout;
use crate::atspi::text::path_of_run;
use crate::atspi::text::paths_of_runs;
use crate::atspi::text::position_of;
use crate::atspi::text::run_layout;
use crate::atspi::text::run_nodes;
use crate::atspi::text::selection_ends;
use crate::atspi::text::selection_of;
use crate::atspi::text::with_runs;
use crate::atspi::text::TextRunLayout;
use crate::atspi::window::changed_runs;
use crate::atspi::window::child_lists;
use crate::atspi::window::effective_extents;
use crate::atspi::window::emit_all;
use crate::atspi::window::emitted_lists;
use crate::atspi::window::first_with_id;
use crate::atspi::window::lemma_built_extends;
use crate::atspi::window::paths_of;
use crate::atspi::window::place_of;
use crate::atspi::window::refreshed;
use crate::atspi::window::run_ids;
use crate::atspi::window::splice_emission;
use crate::atspi::window::splice_scope;
use crate::atspi::window::spliced_children;
use crate::atspi::window::spliced_lists;
use crate::atspi::window::text_rebuilt;
use crate::atspi::window::window_emission;
use crate::atspi::window::window_update;
use crate::atspi::window::with_entries;
use crate::atspi::window::with_entry;
use crate::atspi::window::Emission;
use crate::lines::joined;
use crate::lines::law_breaks_end_every_line_but_the_last;
use crate::lines::law_lines_concatenate_to_the_text;
use crate::lines::lines;
use crate::number::law_normal_encodings_are_values;
use crate::number::Float64;
use crate::strings::numeral;
use crate::strings::views;
use crate::tree::alike;
use crate::tree::list_view;
use crate::tree::node_ids;
use crate::tree::normal_number;
use crate::tree::normal_properties;
use crate::tree::NodeId;
use crate::tree::NodeView;
use crate::tree::Properties;
use vstd::prelude::*;

verus! {

// ---------------------------------------------------------------- ids

/// The paths of the text runs under one node.
pub open spec fn runs_under(node: MirrorNode) -> Seq<Seq<char>> {
    match node.text {
        Some(state) => paths_of_runs(node.path@, lines(state.text@).len()),
        None => Seq::empty(),
    }
}

/// The paths of the text runs under all of `nodes`.
pub open spec fn all_runs(nodes: Seq<MirrorNode>) -> Seq<Seq<char>>
    decreases nodes.len(),
{
    if nodes.len() == 0 {
        Seq::empty()
    } else {
        all_runs(nodes.drop_last()) + runs_under(nodes.last())
    }
}

/// The paths of what is emitted for `nodes`: each node, then its runs.
pub open spec fn emitted_paths(nodes: Seq<MirrorNode>) -> Seq<Seq<char>>
    decreases nodes.len(),
{
    if nodes.len() == 0 {
        Seq::empty()
    } else {
        emitted_paths(nodes.drop_last()).push(nodes.last().path@) + runs_under(nodes.last())
    }
}

/// Whether every path of a set has an id.
pub open spec fn covers(ids: Map<Seq<char>, NodeId>, paths: Set<Seq<char>>) -> bool {
    forall|p: Seq<char>| #[trigger] paths.contains(p) ==> ids.contains_key(p)
}

proof fn lemma_kept_known(paths: Seq<Seq<char>>, set: Set<Seq<char>>, ids: Map<Seq<char>, NodeId>)
    requires
        covers(ids, set),
    ensures
        all_known(ids, kept(paths, set)),
    decreases paths.len(),
{
    if paths.len() > 0 {
        lemma_kept_known(paths.drop_last(), set, ids);
        let before = kept(paths.drop_last(), set);
        let all = kept(paths, set);
        assert forall|i: int| 0 <= i < all.len() implies ids.contains_key(#[trigger] all[i]) by {
            if i < before.len() {
                assert(all[i] == before[i]);
            }
        }
    }
}

proof fn lemma_kept_in_set(paths: Seq<Seq<char>>, set: Set<Seq<char>>, i: int)
    requires
        0 <= i < kept(paths, set).len(),
    ensures
        set.contains(kept(paths, set)[i]),
        paths.contains(kept(paths, set)[i]),
    decreases paths.len(),
{
    let before = kept(paths.drop_last(), set);
    if i < before.len() {
        lemma_kept_in_set(paths.drop_last(), set, i);
        let j = paths.drop_last().index_of(kept(paths, set)[i]);
        assert(paths[j] == kept(paths, set)[i]);
    } else {
        assert(paths[paths.len() - 1] == paths.last());
    }
}

/// Once every path a node may name has an id, building it allocates ids for its
/// runs only.
proof fn lemma_built_ids(
    node: MirrorNode,
    children: Seq<Seq<char>>,
    id: NodeId,
    ids: Map<Seq<char>, NodeId>,
    walked: Set<Seq<char>>,
)
    requires
        covers(ids, walked),
    ensures
        built(node, children, id, ids, walked).ids == with_paths(ids, runs_under(node)),
        with_paths(ids, kept(children, walked)) == ids,
{
    lemma_kept_known(children, walked, ids);
    lemma_with_paths_known(ids, kept(children, walked));
}

proof fn lemma_extends_covers(
    ids: Map<Seq<char>, NodeId>,
    later: Map<Seq<char>, NodeId>,
    set: Set<Seq<char>>,
)
    requires
        covers(ids, set),
        extends(later, ids),
    ensures
        covers(later, set),
{
    assert forall|p: Seq<char>| #[trigger] set.contains(p) implies later.contains_key(p) by {
        assert(ids.contains_key(p));
    }
}

proof fn lemma_emission_ids(
    start: Emission,
    nodes: Seq<MirrorNode>,
    lists: Seq<Seq<Seq<char>>>,
    walked: Set<Seq<char>>,
    forget: bool,
)
    requires
        covers(start.ids, walked),
        all_known(start.ids, paths_of(nodes)),
    ensures
        emit_all(start, nodes, lists, walked, forget).ids == with_paths(start.ids, all_runs(nodes)),
        extends(emit_all(start, nodes, lists, walked, forget).ids, start.ids),
    decreases nodes.len(),
{
    lemma_with_paths_extends(start.ids, all_runs(nodes));
    if nodes.len() > 0 {
        let init = nodes.drop_last();
        lemma_known_init(start.ids, nodes);
        lemma_emission_ids(start, init, lists.drop_last(), walked, forget);
        let before = emit_all(start, init, lists.drop_last(), walked, forget);
        let path = nodes.last().path@;
        assert(paths_of(nodes)[nodes.len() - 1] == path);
        assert(start.ids.contains_key(path));
        lemma_extends_covers(start.ids, before.ids, walked);
        lemma_built_ids(nodes.last(), lists.last(), before.ids[path], before.ids, walked);
        lemma_with_paths_concat(start.ids, all_runs(init), runs_under(nodes.last()));
    }
}

proof fn lemma_known_init(ids: Map<Seq<char>, NodeId>, nodes: Seq<MirrorNode>)
    requires
        nodes.len() > 0,
        all_known(ids, paths_of(nodes)),
    ensures
        all_known(ids, paths_of(nodes.drop_last())),
        ids.contains_key(nodes.last().path@),
{
    assert forall|i: int| 0 <= i < nodes.len() - 1 implies ids.contains_key(
        #[trigger] paths_of(nodes.drop_last())[i],
    ) by {
        assert(paths_of(nodes)[i] == paths_of(nodes.drop_last())[i]);
    }
    assert(paths_of(nodes)[nodes.len() - 1] == nodes.last().path@);
}

/// A window starts out with an id for every path it may name.
proof fn lemma_window_covered(nodes: Seq<MirrorNode>, ids: Map<Seq<char>, NodeId>)
    ensures
        covers(with_paths(ids, paths_of(nodes)), paths_of(nodes).to_set()),
        all_known(with_paths(ids, paths_of(nodes)), paths_of(nodes)),
{
    let paths = paths_of(nodes);
    lemma_with_paths_extends(ids, paths);
    assert forall|i: int| 0 <= i < paths.len() implies with_paths(ids, paths).contains_key(
        #[trigger] paths[i],
    ) by {
        assert(paths.to_set().contains(paths[i]));
    }
}

/// Building a window gives ids to exactly the walked paths and to the text runs
/// under them, in that order. A child that was not walked gets none, and no id
/// that was in use changes.
pub proof fn law_only_walked_paths_and_runs_get_ids(
    nodes: Seq<MirrorNode>,
    ids: Map<Seq<char>, NodeId>,
)
    ensures
        window_emission(nodes, ids).ids == with_paths(ids, paths_of(nodes) + all_runs(nodes)),
        extends(window_emission(nodes, ids).ids, ids),
        window_emission(nodes, ids).ids.dom() == ids.dom().union(
            (paths_of(nodes) + all_runs(nodes)).to_set(),
        ),
{
    let start = Emission {
        ids: with_paths(ids, paths_of(nodes)),
        out: Seq::empty(),
        cache: empty_cache(),
        focus: None,
    };
    lemma_window_covered(nodes, ids);
    lemma_emission_ids(start, nodes, child_lists(nodes), paths_of(nodes).to_set(), false);
    lemma_with_paths_concat(ids, paths_of(nodes), all_runs(nodes));
    lemma_with_paths_extends(ids, paths_of(nodes) + all_runs(nodes));
}

// ---------------------------------------------------------------- emitted nodes

/// The ids of what is emitted are those of the emitted paths.
proof fn lemma_emitted_ids(
    start: Emission,
    nodes: Seq<MirrorNode>,
    lists: Seq<Seq<Seq<char>>>,
    walked: Set<Seq<char>>,
    forget: bool,
)
    requires
        covers(start.ids, walked),
        all_known(start.ids, paths_of(nodes)),
        start.out.len() == 0,
    ensures
        ({
            let after = emit_all(start, nodes, lists, walked, forget);
            &&& node_ids(after.out) == ids_at(after.ids, emitted_paths(nodes))
            &&& all_known(after.ids, emitted_paths(nodes))
        }),
    decreases nodes.len(),
{
    let after = emit_all(start, nodes, lists, walked, forget);
    let paths = emitted_paths(nodes);
    if nodes.len() == 0 {
        assert(node_ids(after.out) =~= ids_at(after.ids, paths));
    } else {
        let init = nodes.drop_last();
        let node = nodes.last();
        lemma_known_init(start.ids, nodes);
        lemma_emitted_ids(start, init, lists.drop_last(), walked, forget);
        lemma_emission_ids(start, init, lists.drop_last(), walked, forget);
        let before = emit_all(start, init, lists.drop_last(), walked, forget);
        lemma_extends_covers(start.ids, before.ids, walked);
        let id = before.ids[node.path@];
        let b = built(node, lists.last(), id, before.ids, walked);
        lemma_built_ids(node, lists.last(), id, before.ids, walked);
        lemma_built_extends(node, lists.last(), id, before.ids, walked);
        lemma_with_paths_extends(before.ids, runs_under(node));
        let seen = emitted_paths(init);
        let under = runs_under(node);
        assert(after.out == before.out.push((id, b.container)) + b.runs);
        assert(b.runs.len() == under.len());
        assert(before.out.len() == node_ids(before.out).len());
        assert(seen.len() == ids_at(before.ids, seen).len());
        assert forall|i: int| 0 <= i < paths.len() implies after.ids.contains_key(
            #[trigger] paths[i],
        ) && node_ids(after.out)[i] == after.ids[paths[i]] by {
            if i < seen.len() {
                assert(paths[i] == seen[i]);
                assert(before.ids.contains_key(seen[i]));
                assert(node_ids(before.out)[i] == ids_at(before.ids, seen)[i]);
                assert(after.out[i] == before.out[i]);
            } else if i == seen.len() {
                assert(paths[i] == node.path@);
                assert(before.ids.contains_key(node.path@));
                assert(after.out[i] == (id, b.container));
            } else {
                let j = i - seen.len() - 1;
                assert(paths[i] == under[j]);
                assert(under.to_set().contains(under[j]));
                assert(after.out[i] == b.runs[j]);
            }
        }
        assert(node_ids(after.out) =~= ids_at(after.ids, paths));
    }
}

/// Whether no two of `nodes` have the same path.
pub open spec fn distinct_paths(nodes: Seq<MirrorNode>) -> bool {
    forall|i: int, j: int|
        0 <= i < j < nodes.len() ==> (#[trigger] nodes[i]).path@ != (#[trigger] nodes[j]).path@
}

/// Whether the paths of `nodes` are object paths, which hold no `#`.
pub open spec fn object_paths(nodes: Seq<MirrorNode>) -> bool {
    forall|i: int| 0 <= i < nodes.len() ==> !(#[trigger] nodes[i]).path@.contains('#')
}

/// Each emitted path is a node's or that of a run under one.
pub open spec fn emitted_for(nodes: Seq<MirrorNode>, path: Seq<char>, k: int) -> bool {
    0 <= k < nodes.len() && (path == nodes[k].path@ || runs_under(nodes[k]).contains(path))
}

proof fn lemma_emitted_for(nodes: Seq<MirrorNode>, i: int) -> (k: int)
    requires
        0 <= i < emitted_paths(nodes).len(),
    ensures
        emitted_for(nodes, emitted_paths(nodes)[i], k),
    decreases nodes.len(),
{
    let seen = emitted_paths(nodes.drop_last());
    let path = emitted_paths(nodes)[i];
    if i < seen.len() {
        let k = lemma_emitted_for(nodes.drop_last(), i);
        assert(seen[i] == path);
        assert(nodes.drop_last()[k] == nodes[k]);
        k
    } else {
        if i > seen.len() {
            assert(runs_under(nodes.last())[i - seen.len() - 1] == path);
        }
        nodes.len() - 1
    }
}

/// A path emitted for one node is not emitted for another.
proof fn lemma_emitted_apart(nodes: Seq<MirrorNode>, path: Seq<char>, k: int, l: int)
    requires
        distinct_paths(nodes),
        object_paths(nodes),
        emitted_for(nodes, path, k),
        emitted_for(nodes, path, l),
    ensures
        k == l,
{
    let (a, b) = (nodes[k].path@, nodes[l].path@);
    if path == a {
        if path != b {
            let j = runs_under(nodes[l]).index_of(path);
            law_run_paths_are_not_object_paths(b, j as nat, a);
        }
    } else {
        let i = runs_under(nodes[k]).index_of(path);
        if path == b {
            law_run_paths_are_not_object_paths(a, i as nat, b);
        } else {
            let j = runs_under(nodes[l]).index_of(path);
            law_run_paths_are_distinct(a, i as nat, b, j as nat);
        }
    }
    if k < l {
        assert(nodes[k].path@ != nodes[l].path@);
    }
    if l < k {
        assert(nodes[l].path@ != nodes[k].path@);
    }
}

proof fn lemma_emitted_paths_distinct(nodes: Seq<MirrorNode>)
    requires
        distinct_paths(nodes),
        object_paths(nodes),
    ensures
        emitted_paths(nodes).no_duplicates(),
    decreases nodes.len(),
{
    if nodes.len() > 0 {
        let init = nodes.drop_last();
        let node = nodes.last();
        let last = nodes.len() - 1;
        let paths = emitted_paths(nodes);
        let seen = emitted_paths(init);
        let under = runs_under(node);
        assert forall|i: int, j: int| 0 <= i < j < init.len() implies (#[trigger] init[i]).path@
            != (#[trigger] init[j]).path@ by {
            assert(nodes[i].path@ != nodes[j].path@);
        }
        assert forall|i: int| 0 <= i < init.len() implies !(
        #[trigger] init[i]).path@.contains('#') by {
            assert(!nodes[i].path@.contains('#'));
        }
        lemma_emitted_paths_distinct(init);
        assert(!nodes[last].path@.contains('#'));
        assert forall|i: int, j: int| 0 <= i < j < paths.len() implies paths[i] != paths[j] by {
            if j < seen.len() {
                assert(paths[i] == seen[i] && paths[j] == seen[j]);
            } else {
                if j > seen.len() {
                    assert(under[j - seen.len() - 1] == paths[j]);
                }
                assert(emitted_for(nodes, paths[j], last));
                if i < seen.len() {
                    let k = lemma_emitted_for(init, i);
                    assert(seen[i] == paths[i]);
                    assert(init[k] == nodes[k]);
                    assert(emitted_for(nodes, paths[i], k));
                    if paths[i] == paths[j] {
                        lemma_emitted_apart(nodes, paths[i], k, last);
                    }
                } else if i == seen.len() {
                    law_run_paths_are_not_object_paths(
                        node.path@,
                        (j - seen.len() - 1) as nat,
                        node.path@,
                    );
                } else {
                    assert(under[i - seen.len() - 1] == paths[i]);
                    if paths[i] == paths[j] {
                        law_run_paths_are_distinct(
                            node.path@,
                            (i - seen.len() - 1) as nat,
                            node.path@,
                            (j - seen.len() - 1) as nat,
                        );
                    }
                }
            }
        }
    }
}

/// No two nodes of a window's update have the same id, as long as no object was
/// walked twice.
pub proof fn law_no_id_is_emitted_twice(nodes: Seq<MirrorNode>, ids: Map<Seq<char>, NodeId>)
    requires
        id_table(ids),
        distinct_paths(nodes),
        object_paths(nodes),
        ids.dom().len() + nodes.len() + all_runs(nodes).len() < u64::MAX,
    ensures
        node_ids(window_emission(nodes, ids).out).no_duplicates(),
{
    let start = Emission {
        ids: with_paths(ids, paths_of(nodes)),
        out: Seq::empty(),
        cache: empty_cache(),
        focus: None,
    };
    let after = window_emission(nodes, ids);
    let paths = emitted_paths(nodes);
    lemma_window_covered(nodes, ids);
    lemma_emitted_ids(start, nodes, child_lists(nodes), paths_of(nodes).to_set(), false);
    law_only_walked_paths_and_runs_get_ids(nodes, ids);
    lemma_with_paths_table(ids, paths_of(nodes) + all_runs(nodes));
    lemma_emitted_paths_distinct(nodes);
    assert forall|i: int, j: int| 0 <= i < j < paths.len() implies node_ids(after.out)[i]
        != node_ids(after.out)[j] by {
        assert(paths[i] != paths[j]);
        assert(after.ids.contains_key(paths[i]) && after.ids.contains_key(paths[j]));
        assert(node_ids(after.out)[i] == ids_at(after.ids, paths)[i]);
        assert(node_ids(after.out)[j] == ids_at(after.ids, paths)[j]);
        assert(after.ids[paths[i]] != after.ids[paths[j]]);
    }
}

/// Whether each child named by what is emitted is emitted too, or is the id of a
/// path in `walked`.
pub open spec fn children_named(
    out: Seq<(NodeId, NodeView)>,
    ids: Map<Seq<char>, NodeId>,
    walked: Set<Seq<char>>,
) -> bool {
    forall|i: int, c: NodeId|
        0 <= i < out.len() && #[trigger] out[i].1.children.contains(c) ==> node_ids(out).contains(c)
            || id_of_some(ids, walked, c)
}

/// Whether `id` is that of a path in `set`.
pub open spec fn id_of_some(ids: Map<Seq<char>, NodeId>, set: Set<Seq<char>>, id: NodeId) -> bool {
    exists|p: Seq<char>| #[trigger] set.contains(p) && ids[p] == id
}

proof fn lemma_children_named(
    start: Emission,
    nodes: Seq<MirrorNode>,
    lists: Seq<Seq<Seq<char>>>,
    walked: Set<Seq<char>>,
    forget: bool,
)
    requires
        covers(start.ids, walked),
        all_known(start.ids, paths_of(nodes)),
        start.out.len() == 0,
    ensures
        children_named(emit_all(start, nodes, lists, walked, forget).out, start.ids, walked),
    decreases nodes.len(),
{
    if nodes.len() > 0 {
        let init = nodes.drop_last();
        let node = nodes.last();
        lemma_known_init(start.ids, nodes);
        lemma_children_named(start, init, lists.drop_last(), walked, forget);
        lemma_emission_ids(start, init, lists.drop_last(), walked, forget);
        let before = emit_all(start, init, lists.drop_last(), walked, forget);
        let after = emit_all(start, nodes, lists, walked, forget);
        lemma_extends_covers(start.ids, before.ids, walked);
        let id = before.ids[node.path@];
        let b = built(node, lists.last(), id, before.ids, walked);
        lemma_built_ids(node, lists.last(), id, before.ids, walked);
        let named = kept(lists.last(), walked);
        let first = before.out.len() as int;
        assert(after.out == before.out.push((id, b.container)) + b.runs);
        assert forall|i: int, c: NodeId|
            0 <= i < after.out.len() && #[trigger] after.out[i].1.children.contains(
                c,
            ) implies node_ids(after.out).contains(c) || id_of_some(start.ids, walked, c) by {
            if i < first {
                assert(after.out[i] == before.out[i]);
                if node_ids(before.out).contains(c) {
                    let j = node_ids(before.out).index_of(c);
                    assert(node_ids(after.out)[j] == c);
                }
            } else if i == first {
                let j = b.container.children.index_of(c);
                if j < named.len() {
                    lemma_kept_in_set(lists.last(), walked, j);
                    assert(c == ids_at(before.ids, named)[j]);
                    assert(start.ids.contains_key(named[j]));
                    assert(walked.contains(named[j]) && start.ids[named[j]] == c);
                } else {
                    let r = j - named.len();
                    assert(c == node_ids(b.runs)[r]);
                    assert(node_ids(after.out)[first + 1 + r] == c);
                }
            } else {
                assert(after.out[i] == b.runs[i - first - 1]);
                assert(after.out[i].1.children.len() == 0);
            }
        }
    }
}

/// No node of a window's update names a child that the update does not have.
pub proof fn law_every_child_is_emitted(
    nodes: Seq<MirrorNode>,
    ids: Map<Seq<char>, NodeId>,
    i: int,
    c: NodeId,
)
    requires
        0 <= i < window_emission(nodes, ids).out.len(),
        window_emission(nodes, ids).out[i].1.children.contains(c),
    ensures
        node_ids(window_emission(nodes, ids).out).contains(c),
{
    let start = Emission {
        ids: with_paths(ids, paths_of(nodes)),
        out: Seq::empty(),
        cache: empty_cache(),
        focus: None,
    };
    let after = window_emission(nodes, ids);
    let walked = paths_of(nodes).to_set();
    lemma_window_covered(nodes, ids);
    lemma_children_named(start, nodes, child_lists(nodes), walked, false);
    if !node_ids(after.out).contains(c) {
        lemma_emitted_ids(start, nodes, child_lists(nodes), walked, false);
        lemma_emission_ids(start, nodes, child_lists(nodes), walked, false);
        let p = choose|p: Seq<char>| #[trigger] walked.contains(p) && start.ids[p] == c;
        let k = paths_of(nodes).index_of(p);
        assert(nodes[k].path@ == p);
        let at = lemma_node_emitted(nodes, k);
        assert(node_ids(after.out)[at] == ids_at(after.ids, emitted_paths(nodes))[at]);
        assert(start.ids.contains_key(p));
    }
}

/// Every node is emitted.
proof fn lemma_node_emitted(nodes: Seq<MirrorNode>, k: int) -> (i: int)
    requires
        0 <= k < nodes.len(),
    ensures
        0 <= i < emitted_paths(nodes).len(),
        emitted_paths(nodes)[i] == nodes[k].path@,
    decreases nodes.len(),
{
    let seen = emitted_paths(nodes.drop_last());
    if k == nodes.len() - 1 {
        seen.len() as int
    } else {
        let i = lemma_node_emitted(nodes.drop_last(), k);
        assert(emitted_paths(nodes)[i] == seen[i]);
        i
    }
}

// ---------------------------------------------------------------- what is remembered

proof fn lemma_cache_is_emitted(
    start: Emission,
    nodes: Seq<MirrorNode>,
    lists: Seq<Seq<Seq<char>>>,
    walked: Set<Seq<char>>,
    forget: bool,
)
    requires
        covers(start.ids, walked),
        all_known(start.ids, paths_of(nodes)),
    ensures
        ({
            let after = emit_all(start, nodes, lists, walked, forget);
            &&& after.cache.nodes.dom() == start.cache.nodes.dom().union(paths_of(nodes).to_set())
            &&& forall|k: int|
                0 <= k < nodes.len() ==> after.out.contains(
                    (
                        after.ids[(#[trigger] nodes[k]).path@],
                        after.cache.nodes[nodes[k].path@],
                    ),
                )
        }),
    decreases nodes.len(),
{
    let after = emit_all(start, nodes, lists, walked, forget);
    if nodes.len() == 0 {
        assert(after.cache.nodes.dom() =~= start.cache.nodes.dom().union(
            paths_of(nodes).to_set(),
        ));
    } else {
        let init = nodes.drop_last();
        let node = nodes.last();
        lemma_known_init(start.ids, nodes);
        lemma_cache_is_emitted(start, init, lists.drop_last(), walked, forget);
        lemma_emission_ids(start, init, lists.drop_last(), walked, forget);
        let before = emit_all(start, init, lists.drop_last(), walked, forget);
        let id = before.ids[node.path@];
        let b = built(node, lists.last(), id, before.ids, walked);
        lemma_built_extends(node, lists.last(), id, before.ids, walked);
        lemma_paths_init(nodes);
        assert(after.cache.nodes.dom() =~= start.cache.nodes.dom().union(
            paths_of(nodes).to_set(),
        ));
        let first = before.out.len() as int;
        assert forall|k: int| 0 <= k < nodes.len() implies after.out.contains(
            (after.ids[(#[trigger] nodes[k]).path@], after.cache.nodes[nodes[k].path@]),
        ) by {
            let path = nodes[k].path@;
            if path == node.path@ {
                assert(after.out[first] == (id, b.container));
                assert(before.ids.contains_key(path));
            } else {
                assert(init[k] == nodes[k]);
                let entry = (before.ids[path], before.cache.nodes[path]);
                assert(before.out.contains(entry));
                let j = before.out.index_of(entry);
                assert(after.out[j] == entry);
                assert(paths_of(nodes)[k] == path);
                assert(start.ids.contains_key(path));
                assert(before.ids.contains_key(path));
            }
        }
    }
}

proof fn lemma_paths_init(nodes: Seq<MirrorNode>)
    requires
        nodes.len() > 0,
    ensures
        paths_of(nodes).to_set() == paths_of(nodes.drop_last()).to_set().insert(
            nodes.last().path@,
        ),
{
    let (all, init) = (paths_of(nodes), paths_of(nodes.drop_last()));
    assert forall|p: Seq<char>| all.contains(p) <==> init.contains(p) || p
        == nodes.last().path@ by {
        if all.contains(p) {
            let j = all.index_of(p);
            if j < init.len() {
                assert(init[j] == p);
            }
        }
        if init.contains(p) {
            let j = init.index_of(p);
            assert(all[j] == p);
        }
        assert(all[nodes.len() - 1] == nodes.last().path@);
    }
    assert(all.to_set() =~= init.to_set().insert(nodes.last().path@));
}

/// A window is remembered to hold exactly the containers that were emitted: one
/// for each walked path, under that path's id.
pub proof fn law_cache_holds_exactly_the_emitted_containers(
    nodes: Seq<MirrorNode>,
    ids: Map<Seq<char>, NodeId>,
)
    ensures
        window_emission(nodes, ids).cache.nodes.dom() == paths_of(nodes).to_set(),
        forall|k: int|
            0 <= k < nodes.len() ==> window_emission(nodes, ids).out.contains(
                (
                    window_emission(nodes, ids).ids[(#[trigger] nodes[k]).path@],
                    window_emission(nodes, ids).cache.nodes[nodes[k].path@],
                ),
            ),
{
    let start = Emission {
        ids: with_paths(ids, paths_of(nodes)),
        out: Seq::empty(),
        cache: empty_cache(),
        focus: None,
    };
    lemma_window_covered(nodes, ids);
    lemma_cache_is_emitted(start, nodes, child_lists(nodes), paths_of(nodes).to_set(), false);
    assert(start.cache.nodes.dom().union(paths_of(nodes).to_set()) =~= paths_of(nodes).to_set());
}

// ---------------------------------------------------------------- the same read again

/// Whether two tables agree on which of `paths` have an id, and on those ids.
pub open spec fn agree_on(
    a: Map<Seq<char>, NodeId>,
    b: Map<Seq<char>, NodeId>,
    paths: Seq<Seq<char>>,
) -> bool {
    forall|i: int|
        0 <= i < paths.len() ==> a.contains_key(#[trigger] paths[i]) == b.contains_key(paths[i])
            && (a.contains_key(paths[i]) ==> a[paths[i]] == b[paths[i]])
}

proof fn lemma_resolved_agree(
    a: Map<Seq<char>, NodeId>,
    b: Map<Seq<char>, NodeId>,
    paths: Seq<Seq<char>>,
)
    requires
        agree_on(a, b, paths),
    ensures
        resolved(a, paths) == resolved(b, paths),
    decreases paths.len(),
{
    if paths.len() > 0 {
        let init = paths.drop_last();
        assert forall|i: int| 0 <= i < init.len() implies a.contains_key(#[trigger] init[i])
            == b.contains_key(init[i]) && (a.contains_key(init[i]) ==> a[init[i]]
            == b[init[i]]) by {
            assert(paths[i] == init[i]);
        }
        lemma_resolved_agree(a, b, init);
        assert(paths[paths.len() - 1] == paths.last());
    }
}

/// Whether the relations of a node name object paths only, which hold no `#`.
pub open spec fn object_targets(relations: Seq<Relation>) -> bool {
    forall|i: int, j: int|
        0 <= i < relations.len() && 0 <= j < relations[i].targets@.len()
            ==> !(#[trigger] relations[i].targets@[j])@.contains('#')
}

/// Relations between objects resolve the same way before and after text runs
/// have been given ids.
proof fn lemma_relations_agree(
    node: NodeView,
    relations: Seq<Relation>,
    ids: Map<Seq<char>, NodeId>,
    nodes: Seq<MirrorNode>,
)
    requires
        object_targets(relations),
    ensures
        with_relations(node, relations, ids) == with_relations(
            node,
            relations,
            with_paths(ids, all_runs(nodes)),
        ),
    decreases relations.len(),
{
    let later = with_paths(ids, all_runs(nodes));
    if relations.len() > 0 {
        let init = relations.drop_last();
        assert forall|i: int, j: int|
            0 <= i < init.len() && 0 <= j < init[i].targets@.len() implies !(
        #[trigger] init[i].targets@[j])@.contains('#') by {
            assert(relations[i].targets@[j] == init[i].targets@[j]);
        }
        lemma_relations_agree(node, init, ids, nodes);
        let targets = views(relations.last().targets@);
        lemma_with_paths_extends(ids, all_runs(nodes));
        assert forall|i: int| 0 <= i < targets.len() implies ids.contains_key(#[trigger] targets[i])
            == later.contains_key(targets[i]) && (ids.contains_key(targets[i]) ==> ids[targets[i]]
            == later[targets[i]]) by {
            assert(!relations[relations.len() - 1].targets@[i]@.contains('#'));
            if all_runs(nodes).contains(targets[i]) {
                lemma_all_runs_are_runs(nodes, targets[i]);
            }
        }
        lemma_resolved_agree(ids, later, targets);
    }
}

/// A run's path holds a `#`.
proof fn lemma_all_runs_are_runs(nodes: Seq<MirrorNode>, path: Seq<char>)
    requires
        all_runs(nodes).contains(path),
    ensures
        path.contains('#'),
    decreases nodes.len(),
{
    let i = all_runs(nodes).index_of(path);
    let before = all_runs(nodes.drop_last());
    if i < before.len() {
        assert(before[i] == path);
        lemma_all_runs_are_runs(nodes.drop_last(), path);
    } else {
        let j = i - before.len();
        assert(runs_under(nodes.last())[j] == path);
        if !path.contains('#') {
            law_run_paths_are_not_object_paths(nodes.last().path@, j as nat, path);
        }
    }
}

/// Whether all of `nodes` name object paths only in their relations.
pub open spec fn object_relations(nodes: Seq<MirrorNode>) -> bool {
    forall|i: int| 0 <= i < nodes.len() ==> object_targets((#[trigger] nodes[i]).relations@)
}

/// A node built while ids were still being given out to text runs is the node
/// built once they all have been.
proof fn lemma_built_later(
    node: MirrorNode,
    children: Seq<Seq<char>>,
    id: NodeId,
    ids: Map<Seq<char>, NodeId>,
    nodes: Seq<MirrorNode>,
    walked: Set<Seq<char>>,
)
    requires
        covers(ids, walked),
        object_targets(node.relations@),
        extends(with_paths(ids, all_runs(nodes)), with_paths(ids, runs_under(node))),
    ensures
        ({
            let later = with_paths(ids, all_runs(nodes));
            let (a, b) = (
                built(node, children, id, ids, walked),
                built(node, children, id, later, walked),
            );
            &&& a.container == b.container
            &&& a.runs == b.runs
            &&& a.cache == b.cache
            &&& b.ids == later
        }),
{
    let later = with_paths(ids, all_runs(nodes));
    let named = kept(children, walked);
    lemma_with_paths_extends(ids, all_runs(nodes));
    lemma_extends_covers(ids, later, walked);
    lemma_built_ids(node, children, id, ids, walked);
    lemma_built_ids(node, children, id, later, walked);
    lemma_relations_agree(container_of(node), node.relations@, ids, nodes);
    lemma_kept_known(children, walked, ids);
    assert(ids_at(ids, named) =~= ids_at(later, named));
    let under = runs_under(node);
    let after = with_paths(ids, under);
    lemma_with_paths_extends(ids, under);
    assert forall|i: int| 0 <= i < under.len() implies after.contains_key(#[trigger] under[i])
        && later.contains_key(under[i]) && later[under[i]] == after[under[i]] by {
        assert(under.to_set().contains(under[i]));
    }
    lemma_with_paths_known(later, under);
    match node.text {
        Some(state) => {
            let count = lines(state.text@).len();
            assert forall|i: int| 0 <= i < count implies later[#[trigger] path_of_run(
                node.path@,
                i as nat,
            )] == after[path_of_run(node.path@, i as nat)] by {
                assert(under[i] == path_of_run(node.path@, i as nat));
            }
            let extents = list_view(state.extents);
            assert(run_nodes(after, node.path@, state.text@, extents, node.bounds) =~= run_nodes(
                later,
                node.path@,
                state.text@,
                extents,
                node.bounds,
            ));
            assert(run_layout(after, node.path@, state.text@) =~= run_layout(
                later,
                node.path@,
                state.text@,
            ));
        },
        None => {},
    }
}

/// What is emitted for `nodes` once every path has its id.
pub open spec fn all_built(
    nodes: Seq<MirrorNode>,
    lists: Seq<Seq<Seq<char>>>,
    ids: Map<Seq<char>, NodeId>,
    walked: Set<Seq<char>>,
) -> Seq<(NodeId, NodeView)>
    decreases nodes.len(),
{
    if nodes.len() == 0 {
        Seq::empty()
    } else {
        let id = ids[nodes.last().path@];
        let b = built(nodes.last(), lists.last(), id, ids, walked);
        all_built(nodes.drop_last(), lists.drop_last(), ids, walked).push((id, b.container))
            + b.runs
    }
}

/// Emitting the first nodes of a longer list; `all` is the whole list.
proof fn lemma_emission_later(
    start: Emission,
    nodes: Seq<MirrorNode>,
    lists: Seq<Seq<Seq<char>>>,
    walked: Set<Seq<char>>,
    forget: bool,
    all: Seq<MirrorNode>,
)
    requires
        covers(start.ids, walked),
        all_known(start.ids, paths_of(all)),
        object_relations(all),
        nodes.len() <= all.len(),
        nodes == all.take(nodes.len() as int),
        start.out.len() == 0,
    ensures
        ({
            let later = with_paths(start.ids, all_runs(all));
            emit_all(start, nodes, lists, walked, forget).out == all_built(
                nodes,
                lists,
                later,
                walked,
            )
        }),
    decreases nodes.len(),
{
    let later = with_paths(start.ids, all_runs(all));
    if nodes.len() > 0 {
        let init = nodes.drop_last();
        let node = nodes.last();
        assert(init =~= all.take(init.len() as int));
        lemma_known_prefix(start.ids, all, nodes.len() as int);
        lemma_known_init(start.ids, nodes);
        lemma_emission_later(start, init, lists.drop_last(), walked, forget, all);
        lemma_emission_ids(start, init, lists.drop_last(), walked, forget);
        let before = emit_all(start, init, lists.drop_last(), walked, forget);
        lemma_extends_covers(start.ids, before.ids, walked);
        lemma_runs_split(all, init.len() as int);
        lemma_runs_split(all, nodes.len() as int);
        // What is left to be given out after `init`, and after `nodes`.
        let rest = all.skip(init.len() as int);
        let beyond = all.skip(nodes.len() as int);
        lemma_with_paths_concat(start.ids, all_runs(init), all_runs(rest));
        lemma_with_paths_concat(start.ids, all_runs(nodes), all_runs(beyond));
        lemma_with_paths_concat(start.ids, all_runs(init), runs_under(node));
        let after = with_paths(before.ids, runs_under(node));
        assert(with_paths(before.ids, all_runs(rest)) == later);
        assert(with_paths(after, all_runs(beyond)) == later);
        lemma_with_paths_extends(after, all_runs(beyond));
        assert(all[init.len() as int] == node);
        lemma_with_paths_extends(before.ids, all_runs(rest));
        lemma_built_later(
            node,
            lists.last(),
            before.ids[node.path@],
            before.ids,
            rest,
            walked,
        );
    }
}

proof fn lemma_known_prefix(ids: Map<Seq<char>, NodeId>, all: Seq<MirrorNode>, n: int)
    requires
        0 <= n <= all.len(),
        all_known(ids, paths_of(all)),
    ensures
        all_known(ids, paths_of(all.take(n))),
{
    assert forall|i: int| 0 <= i < n implies ids.contains_key(
        #[trigger] paths_of(all.take(n))[i],
    ) by {
        assert(paths_of(all)[i] == paths_of(all.take(n))[i]);
    }
}

proof fn lemma_runs_split(all: Seq<MirrorNode>, n: int)
    requires
        0 <= n <= all.len(),
    ensures
        all_runs(all) == all_runs(all.take(n)) + all_runs(all.skip(n)),
    decreases all.len(),
{
    if n == all.len() {
        assert(all.take(n) =~= all);
        assert(all_runs(all.skip(n)) =~= Seq::<Seq<char>>::empty());
        assert(all_runs(all) =~= all_runs(all.take(n)) + all_runs(all.skip(n)));
    } else {
        lemma_runs_split(all.drop_last(), n);
        assert(all.drop_last().take(n) =~= all.take(n));
        assert(all.drop_last().skip(n) =~= all.skip(n).drop_last());
        assert(all.skip(n).last() == all.last());
        assert(all_runs(all) =~= all_runs(all.take(n)) + all_runs(all.skip(n)));
    }
}

/// Splicing the same chain into the same window again emits the same nodes and
/// gives out no more ids, whatever is remembered of the window. Every path that
/// the window has must have its id.
pub proof fn law_resplice_is_idempotent(
    chain: Seq<MirrorNode>,
    ancestor_children: Seq<Seq<char>>,
    known: Set<Seq<char>>,
    ids: Map<Seq<char>, NodeId>,
    cache: WindowCacheView,
    later_cache: WindowCacheView,
)
    requires
        object_relations(chain),
        covers(with_paths(ids, paths_of(chain)), splice_scope(chain, ancestor_children, known)),
    ensures
        ({
            let first = splice_emission(chain, ancestor_children, known, ids, cache);
            let second = splice_emission(
                chain,
                ancestor_children,
                known,
                first.ids,
                later_cache,
            );
            &&& second.out == first.out
            &&& second.ids == first.ids
        }),
{
    let walked = splice_scope(chain, ancestor_children, known);
    let lists = spliced_lists(chain, ancestor_children, known);
    let start = Emission {
        ids: with_paths(ids, paths_of(chain)),
        out: Seq::empty(),
        cache,
        focus: None,
    };
    let first = splice_emission(chain, ancestor_children, known, ids, cache);
    lemma_window_covered(chain, ids);
    lemma_emission_ids(start, chain, lists, walked, true);
    assert(chain.take(chain.len() as int) =~= chain);
    lemma_emission_later(start, chain, lists, walked, true, chain);
    let again = Emission {
        ids: with_paths(first.ids, paths_of(chain)),
        out: Seq::empty(),
        cache: later_cache,
        focus: None,
    };
    assert forall|i: int| 0 <= i < chain.len() implies first.ids.contains_key(
        #[trigger] paths_of(chain)[i],
    ) by {
        assert(start.ids.contains_key(paths_of(chain)[i]));
    }
    lemma_with_paths_known(first.ids, paths_of(chain));
    lemma_extends_covers(start.ids, first.ids, walked);
    lemma_emission_ids(again, chain, lists, walked, true);
    lemma_emission_later(again, chain, lists, walked, true, chain);
    let runs = all_runs(chain);
    lemma_with_paths_extends(start.ids, runs);
    assert forall|i: int| 0 <= i < runs.len() implies first.ids.contains_key(#[trigger] runs[i]) by {
        assert(runs.to_set().contains(runs[i]));
    }
    lemma_with_paths_known(first.ids, runs);
}

/// Whether the cache holds a node as it is built once every path has its id.
pub open spec fn remembered(
    cache: WindowCacheView,
    node: MirrorNode,
    children: Seq<Seq<char>>,
    ids: Map<Seq<char>, NodeId>,
    walked: Set<Seq<char>>,
) -> bool {
    let b = built(node, children, ids[node.path@], ids, walked);
    &&& cache.nodes.contains_key(node.path@)
    &&& cache.nodes[node.path@] == b.container
    &&& match b.cache {
        Some(text) => cache.text.contains_key(node.path@) && cache.text[node.path@] == text,
        None => !cache.text.contains_key(node.path@),
    }
}

#[verifier::rlimit(40)]
proof fn lemma_cache_later(
    start: Emission,
    nodes: Seq<MirrorNode>,
    lists: Seq<Seq<Seq<char>>>,
    walked: Set<Seq<char>>,
    all: Seq<MirrorNode>,
)
    requires
        covers(start.ids, walked),
        all_known(start.ids, paths_of(all)),
        object_relations(all),
        distinct_paths(all),
        nodes.len() <= all.len(),
        nodes.len() == lists.len(),
        nodes == all.take(nodes.len() as int),
        start.cache == empty_cache(),
    ensures
        ({
            let later = with_paths(start.ids, all_runs(all));
            let after = emit_all(start, nodes, lists, walked, false);
            &&& forall|k: int|
                0 <= k < nodes.len() ==> remembered(
                    after.cache,
                    #[trigger] nodes[k],
                    lists[k],
                    later,
                    walked,
                )
            &&& forall|p: Seq<char>| #[trigger]
                after.cache.text.contains_key(p) ==> paths_of(nodes).contains(p)
        }),
    decreases nodes.len(),
{
    let later = with_paths(start.ids, all_runs(all));
    let after = emit_all(start, nodes, lists, walked, false);
    if nodes.len() > 0 {
        let init = nodes.drop_last();
        let node = nodes.last();
        let last = nodes.len() - 1;
        assert(init =~= all.take(init.len() as int));
        lemma_known_prefix(start.ids, all, nodes.len() as int);
        lemma_known_init(start.ids, nodes);
        lemma_cache_later(start, init, lists.drop_last(), walked, all);
        lemma_emission_ids(start, init, lists.drop_last(), walked, false);
        let before = emit_all(start, init, lists.drop_last(), walked, false);
        lemma_extends_covers(start.ids, before.ids, walked);
        lemma_runs_split(all, init.len() as int);
        lemma_runs_split(all, nodes.len() as int);
        let rest = all.skip(init.len() as int);
        let beyond = all.skip(nodes.len() as int);
        lemma_with_paths_concat(start.ids, all_runs(init), all_runs(rest));
        lemma_with_paths_concat(start.ids, all_runs(nodes), all_runs(beyond));
        lemma_with_paths_concat(start.ids, all_runs(init), runs_under(node));
        let given = with_paths(before.ids, runs_under(node));
        assert(with_paths(before.ids, all_runs(rest)) == later);
        assert(with_paths(given, all_runs(beyond)) == later);
        lemma_with_paths_extends(given, all_runs(beyond));
        lemma_with_paths_extends(before.ids, all_runs(rest));
        assert(all[last] == node);
        lemma_built_later(node, lists.last(), before.ids[node.path@], before.ids, rest, walked);
        assert(later[node.path@] == before.ids[node.path@]);
        assert forall|k: int| 0 <= k < last implies nodes[k].path@ != node.path@ by {
            assert(all[k].path@ != all[last].path@);
            assert(all[k] == nodes[k]);
        }
        assert forall|k: int| 0 <= k < nodes.len() implies remembered(
            after.cache,
            #[trigger] nodes[k],
            lists[k],
            later,
            walked,
        ) by {
            if k < last {
                assert(init[k] == nodes[k]);
                assert(remembered(before.cache, init[k], lists.drop_last()[k], later, walked));
            } else {
                if before.cache.text.contains_key(node.path@) {
                    let j = paths_of(init).index_of(node.path@);
                    assert(nodes[j].path@ == node.path@);
                }
            }
        }
        lemma_paths_init(nodes);
        assert forall|p: Seq<char>| #[trigger] after.cache.text.contains_key(p) implies paths_of(
            nodes,
        ).contains(p) by {
            if p != node.path@ {
                assert(before.cache.text.contains_key(p));
                assert(paths_of(init).to_set().contains(p));
            } else {
                assert(paths_of(nodes)[last] == p);
            }
            assert(paths_of(nodes).to_set().contains(p));
        }
    }
}

/// Refreshing a node of a window from a read that has not changed emits nothing:
/// what would be emitted is what the window is remembered to hold.
pub proof fn law_unchanged_refresh_emits_nothing(
    nodes: Seq<MirrorNode>,
    ids: Map<Seq<char>, NodeId>,
    k: int,
)
    requires
        0 <= k < nodes.len(),
        distinct_paths(nodes),
        object_relations(nodes),
    ensures
        ({
            let after = window_emission(nodes, ids);
            let children = kept(views(nodes[k].children@), paths_of(nodes).to_set());
            &&& refreshed(nodes[k], children, after.ids, after.cache)
                == after.cache.nodes[nodes[k].path@]
            &&& with_paths(after.ids, children) == after.ids
        }),
{
    let start = Emission {
        ids: with_paths(ids, paths_of(nodes)),
        out: Seq::empty(),
        cache: empty_cache(),
        focus: None,
    };
    let walked = paths_of(nodes).to_set();
    let lists = child_lists(nodes);
    let after = window_emission(nodes, ids);
    let node = nodes[k];
    lemma_window_covered(nodes, ids);
    assert(nodes.take(nodes.len() as int) =~= nodes);
    lemma_cache_later(start, nodes, lists, walked, nodes);
    lemma_emission_ids(start, nodes, lists, walked, false);
    lemma_extends_covers(start.ids, after.ids, walked);
    let children = kept(lists[k], walked);
    lemma_kept_known(lists[k], walked, after.ids);
    lemma_with_paths_known(after.ids, children);
    let b = built(node, lists[k], after.ids[node.path@], after.ids, walked);
    assert(remembered(after.cache, node, lists[k], after.ids, walked));
    assert(lists[k] == views(node.children@));
    lemma_all_runs_known(start.ids, nodes, k);
    lemma_with_paths_known(after.ids, runs_under(node));
    let own = with_relations(container_of(node), node.relations@, after.ids);
    match node.text {
        Some(_) => {
            assert(run_ids(after.cache.text, node.path@) == node_ids(b.runs));
        },
        None => {
            assert(ids_at(after.ids, children) + run_ids(after.cache.text, node.path@) =~= ids_at(
                after.ids,
                children,
            ));
        },
    }
    assert(b.container == with_structure(
        own,
        b.container.children,
        b.container.props.text_selection,
    ));
}

proof fn lemma_all_runs_known(ids: Map<Seq<char>, NodeId>, nodes: Seq<MirrorNode>, k: int)
    requires
        0 <= k < nodes.len(),
    ensures
        all_known(with_paths(ids, all_runs(nodes)), runs_under(nodes[k])),
    decreases nodes.len(),
{
    let later = with_paths(ids, all_runs(nodes));
    let under = runs_under(nodes[k]);
    lemma_runs_split(nodes, k);
    lemma_runs_split(nodes, k + 1);
    assert(nodes.take(k + 1).drop_last() =~= nodes.take(k));
    assert(nodes.take(k + 1).last() == nodes[k]);
    let before = all_runs(nodes.take(k));
    lemma_with_paths_extends(ids, all_runs(nodes));
    assert forall|i: int| 0 <= i < under.len() implies later.contains_key(#[trigger] under[i]) by {
        assert(all_runs(nodes)[before.len() + i] == under[i]);
        assert(all_runs(nodes).to_set().contains(under[i]));
    }
}

/// A refresh never changes structure: a node keeps the children the window has,
/// its text runs among them, and its selection, and no id is given out.
pub proof fn law_refresh_keeps_structure(
    fresh: MirrorNode,
    children: Seq<Seq<char>>,
    ids: Map<Seq<char>, NodeId>,
    cache: WindowCacheView,
)
    requires
        all_known(ids, children),
        cache.nodes[fresh.path@].children == ids_at(ids, children) + run_ids(
            cache.text,
            fresh.path@,
        ),
    ensures
        with_paths(ids, children) == ids,
        refreshed(fresh, children, ids, cache).children == cache.nodes[fresh.path@].children,
        refreshed(fresh, children, ids, cache).props.text_selection
            == cache.nodes[fresh.path@].props.text_selection,
{
    lemma_with_paths_known(ids, children);
}

// ---------------------------------------------------------------- texts

proof fn lemma_no_changed_runs(runs: Seq<(NodeId, NodeView)>, last: Seq<(NodeId, NodeView)>)
    requires
        runs.len() <= last.len(),
        runs == last.take(runs.len() as int),
    ensures
        changed_runs(runs, last) == Seq::<(NodeId, NodeView)>::empty(),
    decreases runs.len(),
{
    if runs.len() > 0 {
        assert(runs.drop_last() =~= last.take(runs.len() - 1));
        lemma_no_changed_runs(runs.drop_last(), last);
        assert(runs[runs.len() - 1] == last[runs.len() - 1]);
    }
}

/// Rebuilding a text from the state it was just rebuilt from emits nothing,
/// leaves what is remembered as it is, and gives out no ids.
pub proof fn law_rebuild_is_idempotent(
    cache: WindowCacheView,
    path: Seq<char>,
    state: TextState,
    ids: Map<Seq<char>, NodeId>,
)
    ensures
        ({
            let first = text_rebuilt(cache, path, state, ids);
            let second = text_rebuilt(first.cache, path, state, first.ids);
            &&& second.changed == Seq::<(NodeId, NodeView)>::empty()
            &&& second.cache == first.cache
            &&& second.ids == first.ids
        }),
{
    if cache.text.contains_key(path) && cache.nodes.contains_key(path) {
        let first = text_rebuilt(cache, path, state, ids);
        let text = first.cache.text[path];
        let last = first.cache.nodes[path];
        let extents = effective_extents(list_view(state.extents), text.extents, state.text@);
        assert(extents == text.extents);
        let runs = paths_of_runs(path, lines(state.text@).len());
        lemma_with_paths_extends(ids, runs);
        assert forall|i: int| 0 <= i < runs.len() implies first.ids.contains_key(
            #[trigger] runs[i],
        ) by {
            assert(runs.to_set().contains(runs[i]));
        }
        lemma_with_paths_known(first.ids, runs);
        assert(with_runs(first.ids, path, state.text@) == first.ids);
        let second = text_rebuilt(first.cache, path, state, first.ids);
        assert(text.runs.take(text.runs.len() as int) =~= text.runs);
        lemma_no_changed_runs(text.runs, text.runs);
        assert(second.cache.nodes =~= first.cache.nodes);
        assert(second.cache.text =~= first.cache.text);
        assert(second.changed =~= Seq::<(NodeId, NodeView)>::empty());
    }
}

/// The values of nodes that have one.
pub open spec fn values_of(nodes: Seq<(NodeId, NodeView)>) -> Seq<Seq<char>> {
    nodes.map_values(|entry: (NodeId, NodeView)| entry.1.value->0)
}

/// The values of a text's runs, one after another, are the text.
pub proof fn law_runs_concatenate_to_the_text(
    ids: Map<Seq<char>, NodeId>,
    path: Seq<char>,
    text: Seq<char>,
    extents: Option<Seq<CharExtent>>,
    container: Option<CharExtent>,
)
    ensures
        joined(values_of(run_nodes(ids, path, text, extents, container))) == text,
{
    law_lines_concatenate_to_the_text(text);
    assert(values_of(run_nodes(ids, path, text, extents, container)) =~= lines(text));
}

// ---------------------------------------------------------------- single nodes

/// No node is ever hidden, and a description never repeats the name.
pub proof fn law_nodes_are_shown_and_described_once(
    node: MirrorNode,
    children: Seq<Seq<char>>,
    id: NodeId,
    ids: Map<Seq<char>, NodeId>,
    walked: Set<Seq<char>>,
)
    ensures
        !built(node, children, id, ids, walked).container.props.hidden,
        built(node, children, id, ids, walked).container.description is None || built(
            node,
            children,
            id,
            ids,
            walked,
        ).container.description != Some(node.name@),
{
    reveal(properties_of);
    lemma_relations_only_relate(container_of(node), node.relations@, ids);
}

proof fn lemma_relations_only_relate(
    node: NodeView,
    relations: Seq<Relation>,
    ids: Map<Seq<char>, NodeId>,
)
    ensures
        with_relations(node, relations, ids).props.hidden == node.props.hidden,
        with_relations(node, relations, ids).description == node.description,
    decreases relations.len(),
{
    if relations.len() > 0 {
        lemma_relations_only_relate(node, relations.drop_last(), ids);
    }
}

// ---------------------------------------------------------------- splices and merges

/// A spliced node names only children that the splice emits or that the consumer
/// has: known paths and the ancestor's children.
pub proof fn law_splice_names_no_unknown_child(
    chain: Seq<MirrorNode>,
    ancestor_children: Seq<Seq<char>>,
    known: Set<Seq<char>>,
    ids: Map<Seq<char>, NodeId>,
    cache: WindowCacheView,
)
    requires
        covers(with_paths(ids, paths_of(chain)), splice_scope(chain, ancestor_children, known)),
    ensures
        children_named(
            splice_emission(chain, ancestor_children, known, ids, cache).out,
            with_paths(ids, paths_of(chain)),
            known.union(ancestor_children.to_set()),
        ),
{
    let scope = splice_scope(chain, ancestor_children, known);
    let had = known.union(ancestor_children.to_set());
    let lists = spliced_lists(chain, ancestor_children, known);
    let start = Emission {
        ids: with_paths(ids, paths_of(chain)),
        out: Seq::empty(),
        cache,
        focus: None,
    };
    let after = splice_emission(chain, ancestor_children, known, ids, cache);
    lemma_window_covered(chain, ids);
    lemma_children_named(start, chain, lists, scope, true);
    lemma_emitted_ids(start, chain, lists, scope, true);
    lemma_emission_ids(start, chain, lists, scope, true);
    assert forall|i: int, c: NodeId|
        0 <= i < after.out.len() && #[trigger] after.out[i].1.children.contains(c) implies node_ids(
        after.out,
    ).contains(c) || id_of_some(start.ids, had, c) by {
        if !node_ids(after.out).contains(c) {
            let p = choose|p: Seq<char>| #[trigger] scope.contains(p) && start.ids[p] == c;
            if paths_of(chain).contains(p) {
                let k = paths_of(chain).index_of(p);
                let at = lemma_node_emitted(chain, k);
                assert(node_ids(after.out)[at] == ids_at(after.ids, emitted_paths(chain))[at]);
                assert(start.ids.contains_key(p));
            } else {
                assert(had.contains(p) && start.ids[p] == c);
            }
        }
    }
}

/// Splicing keeps every child the ancestor had, and links each node of the chain
/// to the next.
pub proof fn law_splice_keeps_children_and_links_the_chain(
    chain: Seq<MirrorNode>,
    ancestor_children: Seq<Seq<char>>,
    known: Set<Seq<char>>,
    i: int,
)
    requires
        0 <= i < chain.len(),
    ensures
        ancestor_children.is_prefix_of(spliced_children(chain, ancestor_children, known, 0)),
        i + 1 < chain.len() ==> spliced_children(chain, ancestor_children, known, i).contains(
            chain[i + 1].path@,
        ),
{
    let list = spliced_children(chain, ancestor_children, known, i);
    if i + 1 < chain.len() && list.len() > 0 {
        assert(list[list.len() - 1] == list.last());
    }
}

proof fn lemma_entry_put(nodes: Seq<(NodeId, NodeView)>, entry: (NodeId, NodeView))
    ensures
        with_entry(nodes, entry).contains(entry),
        forall|other: (NodeId, NodeView)| #[trigger]
            nodes.contains(other) && other.0 != entry.0 ==> with_entry(nodes, entry).contains(
                other,
            ),
{
    let after = with_entry(nodes, entry);
    if exists|i: int| #[trigger] first_with_id(nodes, entry.0, i) {
        let k = place_of(nodes, entry.0);
        assert(first_with_id(nodes, entry.0, k));
        assert(after[k] == entry);
    } else {
        assert(after[nodes.len() as int] == entry);
    }
    assert forall|other: (NodeId, NodeView)| #[trigger]
        nodes.contains(other) && other.0 != entry.0 implies after.contains(other) by {
        let j = nodes.index_of(other);
        assert(after[j] == other);
    }
}

/// After a merge, every node of the splice is there, and so is every node whose
/// id the splice does not have.
pub proof fn law_merge_replaces_and_keeps(
    full: Seq<(NodeId, NodeView)>,
    splice: Seq<(NodeId, NodeView)>,
)
    requires
        node_ids(splice).no_duplicates(),
    ensures
        forall|i: int|
            0 <= i < splice.len() ==> with_entries(full, splice).contains(#[trigger] splice[i]),
        forall|entry: (NodeId, NodeView)| #[trigger]
            full.contains(entry) && !node_ids(splice).contains(entry.0) ==> with_entries(
                full,
                splice,
            ).contains(entry),
    decreases splice.len(),
{
    if splice.len() > 0 {
        let init = splice.drop_last();
        let last = splice.last();
        let n = splice.len() - 1;
        assert forall|i: int, j: int| 0 <= i < j < init.len() implies node_ids(init)[i] != node_ids(
            init,
        )[j] by {
            assert(node_ids(splice)[i] != node_ids(splice)[j]);
        }
        law_merge_replaces_and_keeps(full, init);
        lemma_entry_put(with_entries(full, init), last);
        assert forall|i: int| 0 <= i < splice.len() implies with_entries(full, splice).contains(
            #[trigger] splice[i],
        ) by {
            if i < n {
                assert(init[i] == splice[i]);
                assert(node_ids(splice)[i] != node_ids(splice)[n]);
            }
        }
        assert forall|entry: (NodeId, NodeView)| #[trigger]
            full.contains(entry) && !node_ids(splice).contains(entry.0) implies with_entries(
            full,
            splice,
        ).contains(entry) by {
            assert(node_ids(splice)[n] == last.0);
            if node_ids(init).contains(entry.0) {
                let j = node_ids(init).index_of(entry.0);
                assert(node_ids(splice)[j] == entry.0);
            }
        }
    }
}

// ---------------------------------------------------------------- what reaches a consumer

/// Which nodes are alike: every property but the numbers is the same, and the numbers
/// are the same numbers.
pub proof fn law_nodes_are_alike_in_everything(a: NodeView, b: NodeView)
    ensures
        alike(a, b) <==> {
            let same = |x: Option<Float64>, y: Option<Float64>|
                match (x, y) {
                    (Some(m), Some(n)) => m.value() == n.value(),
                    (None, None) => true,
                    _ => false,
                };
            let numberless = |p: Properties|
                Properties {
                    numeric_value: None,
                    min_numeric_value: None,
                    max_numeric_value: None,
                    numeric_value_step: None,
                    ..p
                };
            &&& same(a.props.numeric_value, b.props.numeric_value)
            &&& same(a.props.min_numeric_value, b.props.min_numeric_value)
            &&& same(a.props.max_numeric_value, b.props.max_numeric_value)
            &&& same(a.props.numeric_value_step, b.props.numeric_value_step)
            &&& (NodeView { props: numberless(a.props), ..a }) == (NodeView {
                props: numberless(b.props),
                ..b
            })
        },
{
    let (p, q) = (a.props, b.props);
    lemma_same_number(p.numeric_value, q.numeric_value);
    lemma_same_number(p.min_numeric_value, q.min_numeric_value);
    lemma_same_number(p.max_numeric_value, q.max_numeric_value);
    lemma_same_number(p.numeric_value_step, q.numeric_value_step);
    let (m, n) = (normal_properties(p), normal_properties(q));
    if alike(a, b) {
        assert(m == n);
    }
}

proof fn lemma_same_number(x: Option<Float64>, y: Option<Float64>)
    ensures
        normal_number(x) == normal_number(y) <==> match (x, y) {
            (Some(m), Some(n)) => m.value() == n.value(),
            (None, None) => true,
            _ => false,
        },
{
    if let (Some(m), Some(n)) = (x, y) {
        law_normal_encodings_are_values(m, n);
    }
}

/// A node without numbers is alike only to itself.
proof fn lemma_alike_without_numbers(a: NodeView, b: NodeView)
    requires
        b.props.numeric_value is None,
        b.props.min_numeric_value is None,
        b.props.max_numeric_value is None,
        b.props.numeric_value_step is None,
        alike(a, b),
    ensures
        a == b,
{
    let (p, q) = (normal_properties(a.props), normal_properties(b.props));
    assert(p == q);
    assert(a.props == b.props);
}

proof fn lemma_changed_runs(
    runs: Seq<(NodeId, NodeView)>,
    last: Seq<(NodeId, NodeView)>,
    i: int,
    k: int,
)
    ensures
        0 <= i < runs.len() ==> (i < last.len() && last[i].0 == runs[i].0 && alike(
            last[i].1,
            runs[i].1,
        )) || changed_runs(runs, last).contains(runs[i]),
        0 <= k < changed_runs(runs, last).len() ==> exists|j: int|
            0 <= j < runs.len() && #[trigger] runs[j] == changed_runs(runs, last)[k] && !(j
                < last.len() && last[j].0 == runs[j].0 && alike(last[j].1, runs[j].1)),
    decreases runs.len(),
{
    if runs.len() > 0 {
        let init = runs.drop_last();
        let (before, all) = (changed_runs(init, last), changed_runs(runs, last));
        lemma_changed_runs(init, last, i, k);
        let n = runs.len() - 1;
        if 0 <= i < n {
            assert(init[i] == runs[i]);
            if before.contains(runs[i]) {
                let p = before.index_of(runs[i]);
                assert(all[p] == runs[i]);
            }
        }
        if all.len() > before.len() {
            assert(all[before.len() as int] == runs[n]);
        }
        if 0 <= k < before.len() {
            let j = choose|j: int|
                0 <= j < init.len() && #[trigger] init[j] == before[k] && !(j < last.len()
                    && last[j].0 == init[j].0 && alike(last[j].1, init[j].1));
            assert(runs[j] == all[k]);
        }
    }
}

/// What is sent of a text that was read again, applied to what was sent before, is the
/// text as it was read: each of its runs is either held already, the same and in the
/// same place, or sent. So is the container, as far as it can be told apart. Every
/// child that the container names, and every node that its selection is in, is one
/// that the consumer held under it or that is sent along.
pub proof fn law_a_rebuilt_text_reaches_the_consumer(
    cache: WindowCacheView,
    path: Seq<char>,
    state: TextState,
    ids: Map<Seq<char>, NodeId>,
    i: int,
)
    requires
        cache.text.contains_key(path),
        cache.nodes.contains_key(path),
    ensures
        ({
            let rebuilt = text_rebuilt(cache, path, state, ids);
            let (before, after) = (cache.text[path], rebuilt.cache.text[path]);
            let container = rebuilt.cache.nodes[path];
            &&& rebuilt.cache.text.contains_key(path)
            &&& rebuilt.cache.nodes.contains_key(path)
            &&& values_of(after.runs) == lines(state.text@)
            &&& 0 <= i < after.runs.len() ==> (i < before.runs.len() && before.runs[i]
                == after.runs[i]) || rebuilt.changed.contains(after.runs[i])
            &&& alike(container, cache.nodes[path]) || rebuilt.changed.contains(
                (before.node_id, container),
            )
            &&& container.children == before.element_children + node_ids(after.runs)
            &&& 0 <= i < container.children.len() ==> before.element_children.contains(
                container.children[i],
            ) || node_ids(before.runs).contains(container.children[i]) || node_ids(
                rebuilt.changed,
            ).contains(container.children[i])
            &&& container.props.text_selection matches Some(selection) ==> {
                &&& node_ids(after.runs).contains(selection.anchor.node)
                &&& node_ids(after.runs).contains(selection.focus.node)
            }
        }),
{
    let rebuilt = text_rebuilt(cache, path, state, ids);
    let (before, after) = (cache.text[path], rebuilt.cache.text[path]);
    let container = rebuilt.cache.nodes[path];
    let head = if alike(container, cache.nodes[path]) {
        Seq::empty()
    } else {
        seq![(before.node_id, container)]
    };
    let some = changed_runs(after.runs, before.runs);
    assert(rebuilt.changed == head + some);
    assert(values_of(after.runs) =~= lines(state.text@));
    if head.len() > 0 {
        assert(rebuilt.changed[0] == (before.node_id, container));
    }
    assert forall|j: int| 0 <= j < after.runs.len() implies (j < before.runs.len() && before.runs[j]
        == #[trigger] after.runs[j]) || rebuilt.changed.contains(after.runs[j]) by {
        lemma_changed_runs(after.runs, before.runs, j, 0);
        if some.contains(after.runs[j]) {
            let p = some.index_of(after.runs[j]);
            assert(rebuilt.changed[head.len() + p] == after.runs[j]);
        } else {
            lemma_alike_without_numbers(before.runs[j].1, after.runs[j].1);
        }
    }
    if 0 <= i < container.children.len() {
        let n = before.element_children.len();
        if i < n {
            assert(before.element_children[i] == container.children[i]);
        } else {
            let j = i - n;
            assert(container.children[i] == after.runs[j].0);
            if rebuilt.changed.contains(after.runs[j]) {
                let p = rebuilt.changed.index_of(after.runs[j]);
                assert(node_ids(rebuilt.changed)[p] == after.runs[j].0);
            } else {
                assert(node_ids(before.runs)[j] == after.runs[j].0);
            }
        }
    }
    law_breaks_end_every_line_but_the_last(state.text@);
    match container.props.text_selection {
        Some(selection) => {
            let (anchor, focus) = selection_ends(state.caret, state.selection)->0;
            lemma_selected_run(after.layout, after.runs, anchor as nat);
            lemma_selected_run(after.layout, after.runs, focus as nat);
        },
        None => {},
    }
}

proof fn lemma_selected_run(
    layout: Seq<TextRunLayout>,
    runs: Seq<(NodeId, NodeView)>,
    offset: nat,
)
    requires
        layout.len() > 0,
        layout.len() == runs.len(),
        forall|i: int| 0 <= i < runs.len() ==> (#[trigger] layout[i]).id == runs[i].0,
    ensures
        node_ids(runs).contains(position_of(layout, offset).node),
{
    lemma_position_in_layout(layout, offset);
    let i = choose|i: int|
        0 <= i < layout.len() && (#[trigger] layout[i]).id == position_of(layout, offset).node;
    assert(node_ids(runs)[i] == layout[i].id);
}

/// A text that was read again sends nothing that the consumer holds already: the
/// container only if it differs, and of the runs only those that are new or differ.
/// All else about the container, and every other node and text, stays as it was.
pub proof fn law_a_rebuilt_text_sends_nothing_else(
    cache: WindowCacheView,
    path: Seq<char>,
    state: TextState,
    ids: Map<Seq<char>, NodeId>,
    k: int,
    other: Seq<char>,
)
    requires
        cache.text.contains_key(path),
        cache.nodes.contains_key(path),
        other != path,
    ensures
        ({
            let rebuilt = text_rebuilt(cache, path, state, ids);
            let (before, after) = (cache.text[path], rebuilt.cache.text[path]);
            let (was, is) = (cache.nodes[path], rebuilt.cache.nodes[path]);
            &&& 0 <= k < rebuilt.changed.len() ==> (rebuilt.changed[k] == (before.node_id, is)
                && !alike(is, was)) || exists|j: int|
                0 <= j < after.runs.len() && #[trigger] after.runs[j] == rebuilt.changed[k] && !(j
                    < before.runs.len() && before.runs[j] == after.runs[j])
            &&& (NodeView {
                props: Properties { text_selection: None, ..is.props },
                children: Seq::empty(),
                ..is
            }) == (NodeView {
                props: Properties { text_selection: None, ..was.props },
                children: Seq::empty(),
                ..was
            })
            &&& after.node_id == before.node_id
            &&& after.element_children == before.element_children
            &&& after.caret_enabled == before.caret_enabled
            &&& after.container_bounds == before.container_bounds
            &&& extends(rebuilt.ids, ids)
            &&& rebuilt.cache.nodes.contains_key(other) == cache.nodes.contains_key(other)
            &&& cache.nodes.contains_key(other) ==> rebuilt.cache.nodes[other]
                == cache.nodes[other]
            &&& rebuilt.cache.text.contains_key(other) == cache.text.contains_key(other)
            &&& cache.text.contains_key(other) ==> rebuilt.cache.text[other] == cache.text[other]
        }),
{
    let rebuilt = text_rebuilt(cache, path, state, ids);
    let (before, after) = (cache.text[path], rebuilt.cache.text[path]);
    let container = rebuilt.cache.nodes[path];
    let head = if alike(container, cache.nodes[path]) {
        Seq::empty()
    } else {
        seq![(before.node_id, container)]
    };
    let some = changed_runs(after.runs, before.runs);
    assert(rebuilt.changed == head + some);
    lemma_with_paths_extends(ids, paths_of_runs(path, lines(state.text@).len()));
    if head.len() <= k < rebuilt.changed.len() {
        let p = k - head.len();
        lemma_changed_runs(after.runs, before.runs, 0, p);
        let j = choose|j: int|
            0 <= j < after.runs.len() && #[trigger] after.runs[j] == some[p] && !(j
                < before.runs.len() && before.runs[j].0 == after.runs[j].0 && alike(
                before.runs[j].1,
                after.runs[j].1,
            ));
        assert(after.runs[j] == rebuilt.changed[k]);
    }
}

/// A text is laid out by the extents just read; without any, by those it had, as long
/// as there is one for each of its characters.
pub proof fn law_extents_are_kept_while_they_fit(
    cache: WindowCacheView,
    path: Seq<char>,
    state: TextState,
    ids: Map<Seq<char>, NodeId>,
)
    requires
        cache.text.contains_key(path),
        cache.nodes.contains_key(path),
    ensures
        ({
            let (before, after) = (
                cache.text[path].extents,
                text_rebuilt(cache, path, state, ids).cache.text[path].extents,
            );
            &&& state.extents matches Some(read) ==> after == Some(read@)
            &&& state.extents is None ==> {
                &&& after is Some <==> before is Some && before->0.len() == state.text@.len()
                &&& after is Some ==> after == before
            }
        }),
{
}

proof fn lemma_kept_is_filter(paths: Seq<Seq<char>>, set: Set<Seq<char>>)
    ensures
        kept(paths, set) == paths.filter(|p: Seq<char>| set.contains(p)),
    decreases paths.len(),
{
    reveal(Seq::filter);
    if paths.len() > 0 {
        lemma_kept_is_filter(paths.drop_last(), set);
    }
}

/// What relations add to a node is relations: nothing else about it changes.
proof fn lemma_relations_add_relations(
    node: NodeView,
    relations: Seq<Relation>,
    ids: Map<Seq<char>, NodeId>,
)
    ensures
        ({
            let after = with_relations(node, relations, ids);
            after == NodeView {
                props: Properties { error_message: after.props.error_message, ..node.props },
                labelled_by: after.labelled_by,
                controls: after.controls,
                described_by: after.described_by,
                details: after.details,
                ..node
            }
        }),
    decreases relations.len(),
{
    if relations.len() > 0 {
        lemma_relations_add_relations(node, relations.drop_last(), ids);
    }
}

/// Every walked object is emitted as it was read: what it says is what the object
/// says, its children are those of its own that were walked, in its order, and behind
/// them its text runs. Its relations are resolved among all that was walked, and its
/// selection is that of its text.
pub proof fn law_each_object_is_emitted_as_it_was_read(
    nodes: Seq<MirrorNode>,
    ids: Map<Seq<char>, NodeId>,
    k: int,
)
    requires
        0 <= k < nodes.len(),
        distinct_paths(nodes),
        object_relations(nodes),
    ensures
        ({
            let after = window_emission(nodes, ids);
            let (node, own) = (nodes[k], container_of(nodes[k]));
            let related = with_relations(own, node.relations@, after.ids);
            let path = node.path@;
            let emitted = after.cache.nodes[path];
            let walked = views(node.children@).filter(
                |p: Seq<char>| paths_of(nodes).contains(p),
            );
            &&& after.out.contains((after.ids[path], emitted))
            &&& emitted.children.len() == walked.len() + runs_under(node).len()
            &&& forall|i: int|
                0 <= i < walked.len() ==> #[trigger] emitted.children[i] == after.ids[walked[i]]
            &&& forall|i: int|
                0 <= i < runs_under(node).len() ==> emitted.children[walked.len() + i]
                    == after.ids[#[trigger] runs_under(node)[i]]
            &&& emitted == NodeView {
                props: Properties {
                    error_message: emitted.props.error_message,
                    text_selection: emitted.props.text_selection,
                    ..own.props
                },
                children: emitted.children,
                labelled_by: emitted.labelled_by,
                controls: emitted.controls,
                described_by: emitted.described_by,
                details: emitted.details,
                ..own
            }
            &&& emitted == NodeView {
                props: Properties {
                    text_selection: emitted.props.text_selection,
                    ..related.props
                },
                children: emitted.children,
                ..related
            }
            &&& emitted.props.text_selection == match node.text {
                Some(state) => selection_of(
                    state.caret,
                    state.selection,
                    run_layout(after.ids, path, state.text@),
                ),
                None => None,
            }
        }),
{
    let start = Emission {
        ids: with_paths(ids, paths_of(nodes)),
        out: Seq::empty(),
        cache: empty_cache(),
        focus: None,
    };
    let walked = paths_of(nodes).to_set();
    let lists = child_lists(nodes);
    let after = window_emission(nodes, ids);
    let node = nodes[k];
    lemma_window_covered(nodes, ids);
    assert(nodes.take(nodes.len() as int) =~= nodes);
    lemma_cache_later(start, nodes, lists, walked, nodes);
    lemma_emission_ids(start, nodes, lists, walked, false);
    lemma_extends_covers(start.ids, after.ids, walked);
    law_cache_holds_exactly_the_emitted_containers(nodes, ids);
    let children = kept(lists[k], walked);
    lemma_kept_known(lists[k], walked, after.ids);
    lemma_with_paths_known(after.ids, children);
    let b = built(node, lists[k], after.ids[node.path@], after.ids, walked);
    assert(remembered(after.cache, node, lists[k], after.ids, walked));
    lemma_all_runs_known(start.ids, nodes, k);
    lemma_with_paths_known(after.ids, runs_under(node));
    lemma_relations_add_relations(container_of(node), node.relations@, after.ids);
    lemma_kept_is_filter(lists[k], walked);
    let (f, g) = (
        |p: Seq<char>| walked.contains(p),
        |p: Seq<char>| paths_of(nodes).contains(p),
    );
    assert forall|p: Seq<char>| #[trigger] f(p) == g(p) by {}
    assert(f =~= g);
    match node.text {
        Some(state) => {
            let runs = runs_under(node);
            assert forall|i: int| 0 <= i < runs.len() implies b.container.children[children.len()
                + i] == after.ids[#[trigger] runs[i]] by {
                assert(node_ids(b.runs)[i] == b.runs[i].0);
            }
        },
        None => {},
    }
}

/// Every run of every walked text is emitted, each with its line.
pub proof fn law_every_run_is_emitted(
    nodes: Seq<MirrorNode>,
    ids: Map<Seq<char>, NodeId>,
    k: int,
    i: int,
)
    requires
        0 <= k < nodes.len(),
        object_relations(nodes),
        nodes[k].text is Some,
        0 <= i < lines(nodes[k].text->0.text@).len(),
    ensures
        ({
            let after = window_emission(nodes, ids);
            let (path, text) = (nodes[k].path@, nodes[k].text->0);
            exists|p: int|
                {
                    let (id, run) = #[trigger] after.out[p];
                    &&& 0 <= p < after.out.len()
                    &&& id == after.ids[path + "#run"@ + numeral(i as nat)]
                    &&& run == run_nodes(
                        after.ids,
                        path,
                        text.text@,
                        list_view(text.extents),
                        nodes[k].bounds,
                    )[i].1
                    &&& run.value == Some(lines(text.text@)[i])
                }
        }),
{
    let start = Emission {
        ids: with_paths(ids, paths_of(nodes)),
        out: Seq::empty(),
        cache: empty_cache(),
        focus: None,
    };
    let walked = paths_of(nodes).to_set();
    let lists = child_lists(nodes);
    let after = window_emission(nodes, ids);
    lemma_window_covered(nodes, ids);
    assert(nodes.take(nodes.len() as int) =~= nodes);
    lemma_emission_later(start, nodes, lists, walked, false, nodes);
    lemma_emission_ids(start, nodes, lists, walked, false);
    lemma_extends_covers(start.ids, after.ids, walked);
    let p = lemma_run_built(nodes, lists, after.ids, walked, k, i);
    let node = nodes[k];
    let children = kept(lists[k], walked);
    lemma_kept_known(lists[k], walked, after.ids);
    lemma_with_paths_known(after.ids, children);
    lemma_all_runs_known(start.ids, nodes, k);
    lemma_with_paths_known(after.ids, runs_under(node));
    let b = built(node, lists[k], after.ids[node.path@], after.ids, walked);
    assert(b.runs[i].0 == after.ids[path_of_run(node.path@, i as nat)]);
    assert(after.out[p] == b.runs[i]);
}

proof fn lemma_run_built(
    nodes: Seq<MirrorNode>,
    lists: Seq<Seq<Seq<char>>>,
    ids: Map<Seq<char>, NodeId>,
    walked: Set<Seq<char>>,
    k: int,
    i: int,
) -> (p: int)
    requires
        0 <= k < nodes.len(),
        nodes.len() == lists.len(),
        0 <= i < built(nodes[k], lists[k], ids[nodes[k].path@], ids, walked).runs.len(),
    ensures
        0 <= p < all_built(nodes, lists, ids, walked).len(),
        all_built(nodes, lists, ids, walked)[p] == built(
            nodes[k],
            lists[k],
            ids[nodes[k].path@],
            ids,
            walked,
        ).runs[i],
    decreases nodes.len(),
{
    let (init, first) = (nodes.drop_last(), lists.drop_last());
    let before = all_built(init, first, ids, walked);
    if k < nodes.len() - 1 {
        assert(init[k] == nodes[k] && first[k] == lists[k]);
        let p = lemma_run_built(init, first, ids, walked, k, i);
        assert(all_built(nodes, lists, ids, walked)[p] == before[p]);
        p
    } else {
        before.len() + 1 + i
    }
}

/// Focus is on the object that is marked as focused, the last one if several are; a
/// window without one has it on its root.
pub proof fn law_focus_is_on_the_focused_object(
    nodes: Seq<MirrorNode>,
    ids: Map<Seq<char>, NodeId>,
    k: int,
)
    requires
        0 <= k < nodes.len(),
    ensures
        nodes[k].states.focused && (forall|j: int|
            k < j < nodes.len() ==> !(#[trigger] nodes[j]).states.focused) ==> window_update(
            nodes,
            ids,
        ).focus == window_emission(nodes, ids).ids[nodes[k].path@],
        (forall|j: int| 0 <= j < nodes.len() ==> !(#[trigger] nodes[j]).states.focused)
            ==> window_update(nodes, ids).focus == window_emission(nodes, ids).ids[nodes[0].path@],
        window_update(nodes, ids).tree matches Some(tree) && tree.root == window_emission(
            nodes,
            ids,
        ).ids[nodes[0].path@],
{
    let start = Emission {
        ids: with_paths(ids, paths_of(nodes)),
        out: Seq::empty(),
        cache: empty_cache(),
        focus: None,
    };
    let walked = paths_of(nodes).to_set();
    lemma_window_covered(nodes, ids);
    lemma_emission_ids(start, nodes, child_lists(nodes), walked, false);
    lemma_with_paths_extends(start.ids, all_runs(nodes));
    lemma_focused(start, nodes, child_lists(nodes), walked, k);
    assert(paths_of(nodes)[0] == nodes[0].path@);
    assert(paths_of(nodes)[k] == nodes[k].path@);
    assert(start.ids.contains_key(paths_of(nodes)[0]));
    assert(start.ids.contains_key(paths_of(nodes)[k]));
}

proof fn lemma_focused(
    start: Emission,
    nodes: Seq<MirrorNode>,
    lists: Seq<Seq<Seq<char>>>,
    walked: Set<Seq<char>>,
    k: int,
)
    requires
        0 <= k < nodes.len(),
        nodes.len() == lists.len(),
        covers(start.ids, walked),
        all_known(start.ids, paths_of(nodes)),
        start.focus is None,
    ensures
        nodes[k].states.focused && (forall|j: int|
            k < j < nodes.len() ==> !(#[trigger] nodes[j]).states.focused) ==> emit_all(
            start,
            nodes,
            lists,
            walked,
            false,
        ).focus == Some(start.ids[nodes[k].path@]),
        (forall|j: int| 0 <= j < nodes.len() ==> !(#[trigger] nodes[j]).states.focused)
            ==> emit_all(start, nodes, lists, walked, false).focus is None,
    decreases nodes.len(),
{
    let (init, first) = (nodes.drop_last(), lists.drop_last());
    lemma_known_init(start.ids, nodes);
    lemma_emission_ids(start, init, first, walked, false);
    lemma_with_paths_extends(start.ids, all_runs(init));
    let before = emit_all(start, init, first, walked, false);
    assert(before.ids.contains_key(nodes.last().path@));
    assert(nodes[nodes.len() - 1] == nodes.last());
    if init.len() > 0 {
        lemma_focused(start, init, first, walked, if k < init.len() { k } else { 0 });
        assert forall|j: int| 0 <= j < init.len() implies #[trigger] init[j] == nodes[j] by {}
    }
}

/// The children that are remembered of each walked object are those of its own that
/// were walked, in its order.
pub proof fn law_remembered_children_are_the_walked_ones(nodes: Seq<MirrorNode>, k: int)
    requires
        0 <= k < nodes.len(),
        distinct_paths(nodes),
    ensures
        ({
            let lists = emitted_lists(nodes, paths_of(nodes).to_set());
            &&& lists.dom() == paths_of(nodes).to_set()
            &&& lists[nodes[k].path@] == views(nodes[k].children@).filter(
                |p: Seq<char>| paths_of(nodes).contains(p),
            )
        }),
{
    let walked = paths_of(nodes).to_set();
    lemma_emitted_lists(nodes, walked, k);
    lemma_kept_is_filter(views(nodes[k].children@), walked);
    let (f, g) = (
        |p: Seq<char>| walked.contains(p),
        |p: Seq<char>| paths_of(nodes).contains(p),
    );
    assert forall|p: Seq<char>| #[trigger] f(p) == g(p) by {}
    assert(f =~= g);
}

proof fn lemma_emitted_lists(nodes: Seq<MirrorNode>, walked: Set<Seq<char>>, k: int)
    requires
        distinct_paths(nodes),
    ensures
        emitted_lists(nodes, walked).dom() == paths_of(nodes).to_set(),
        0 <= k < nodes.len() ==> emitted_lists(nodes, walked)[nodes[k].path@] == kept(
            views(nodes[k].children@),
            walked,
        ),
    decreases nodes.len(),
{
    if nodes.len() > 0 {
        let init = nodes.drop_last();
        let last = nodes.len() - 1;
        assert forall|i: int, j: int| 0 <= i < j < init.len() implies (#[trigger] init[i]).path@
            != (#[trigger] init[j]).path@ by {
            assert(nodes[i].path@ != nodes[j].path@);
        }
        lemma_emitted_lists(init, walked, k);
        lemma_paths_init(nodes);
        if 0 <= k < last {
            assert(init[k] == nodes[k]);
            assert(nodes[k].path@ != nodes[last].path@);
        }
    }
    assert(emitted_lists(nodes, walked).dom() =~= paths_of(nodes).to_set());
}

/// A node further down a chain keeps those of its own children that are known or in
/// the chain, in its order; what is added is the next node of the chain, where it is
/// not among them, and nothing else.
pub proof fn law_a_spliced_node_keeps_its_own_children(
    chain: Seq<MirrorNode>,
    ancestor_children: Seq<Seq<char>>,
    known: Set<Seq<char>>,
    i: int,
)
    requires
        0 <= i < chain.len(),
    ensures
        ({
            let list = spliced_children(chain, ancestor_children, known, i);
            let own = if i == 0 {
                ancestor_children
            } else {
                views(chain[i].children@).filter(
                    |p: Seq<char>| known.contains(p) || paths_of(chain).contains(p),
                )
            };
            &&& own.is_prefix_of(list)
            &&& list.len() <= own.len() + 1
            &&& list.len() > own.len() ==> i + 1 < chain.len() && list.last() == chain[i
                + 1].path@ && !own.contains(chain[i + 1].path@)
            &&& i + 1 == chain.len() ==> list == own
        }),
{
    let scope = known.union(paths_of(chain).to_set());
    lemma_kept_is_filter(views(chain[i].children@), scope);
    let (f, g) = (
        |p: Seq<char>| scope.contains(p),
        |p: Seq<char>| known.contains(p) || paths_of(chain).contains(p),
    );
    assert forall|p: Seq<char>| #[trigger] f(p) == g(p) by {}
    assert(f =~= g);
    let list = spliced_children(chain, ancestor_children, known, i);
}

/// A merge adds nothing of its own: every node of it is the splice's, or one of the
/// window's that the splice does not replace, and the window's stay in their places.
pub proof fn law_a_merge_adds_nothing_of_its_own(
    full: Seq<(NodeId, NodeView)>,
    splice: Seq<(NodeId, NodeView)>,
    i: int,
)
    requires
        node_ids(full).no_duplicates(),
        0 <= i < with_entries(full, splice).len(),
    ensures
        ({
            let merged = with_entries(full, splice);
            &&& full.len() <= merged.len()
            &&& node_ids(merged).no_duplicates()
            &&& i < full.len() ==> merged[i].0 == full[i].0
            &&& splice.contains(merged[i]) || (i < full.len() && merged[i] == full[i]
                && !node_ids(splice).contains(full[i].0))
        }),
    decreases splice.len(),
{
    let merged = with_entries(full, splice);
    if splice.len() > 0 {
        let (init, last) = (splice.drop_last(), splice.last());
        let before = with_entries(full, init);
        let n = splice.len() - 1;
        assert(node_ids(splice)[n] == last.0);
        assert forall|j: int| 0 <= j < before.len() implies {
            &&& #[trigger] before.len() > j
            &&& full.len() <= before.len()
            &&& j < full.len() ==> before[j].0 == full[j].0
        } by {
            law_a_merge_adds_nothing_of_its_own(full, init, j);
        }
        if before.len() > 0 {
            law_a_merge_adds_nothing_of_its_own(full, init, 0);
        } else {
            assert(node_ids(before).no_duplicates());
            lemma_merge_grows(full, init);
        }
        if exists|j: int| #[trigger] first_with_id(before, last.0, j) {
            let j = place_of(before, last.0);
            assert(first_with_id(before, last.0, j));
            assert(node_ids(merged) =~= node_ids(before));
            if i != j {
                law_a_merge_adds_nothing_of_its_own(full, init, i);
                assert(node_ids(before)[i] != node_ids(before)[j]);
            } else {
                assert(splice[n] == merged[i]);
                law_a_merge_adds_nothing_of_its_own(full, init, i);
            }
        } else {
            assert forall|a: int, b: int| 0 <= a < b < merged.len() implies node_ids(merged)[a]
                != node_ids(merged)[b] by {
                if b == before.len() {
                    if before[a].0 == last.0 {
                        lemma_first_with_id(before, last.0, a);
                    }
                } else {
                    assert(node_ids(before)[a] != node_ids(before)[b]);
                }
            }
            if i < before.len() {
                law_a_merge_adds_nothing_of_its_own(full, init, i);
                if before[i].0 == last.0 {
                    lemma_first_with_id(before, last.0, i);
                }
            } else {
                assert(splice[n] == merged[i]);
            }
        }
        if i < before.len() {
            if init.contains(merged[i]) {
                let p = init.index_of(merged[i]);
                assert(splice[p] == merged[i]);
            }
            if i < full.len() && node_ids(splice).contains(full[i].0) {
                let p = node_ids(splice).index_of(full[i].0);
                if p < n {
                    assert(node_ids(init)[p] == full[i].0);
                }
            }
        }
    }
}

proof fn lemma_merge_grows(full: Seq<(NodeId, NodeView)>, splice: Seq<(NodeId, NodeView)>)
    ensures
        full.len() <= with_entries(full, splice).len(),
    decreases splice.len(),
{
    if splice.len() > 0 {
        lemma_merge_grows(full, splice.drop_last());
    }
}

proof fn lemma_first_with_id(nodes: Seq<(NodeId, NodeView)>, id: NodeId, k: int)
    requires
        0 <= k < nodes.len(),
        nodes[k].0 == id,
    ensures
        exists|i: int| #[trigger] first_with_id(nodes, id, i),
    decreases k,
{
    if exists|j: int| 0 <= j < k && (#[trigger] nodes[j]).0 == id {
        let j = choose|j: int| 0 <= j < k && (#[trigger] nodes[j]).0 == id;
        lemma_first_with_id(nodes, id, j);
    } else {
        assert(first_with_id(nodes, id, k));
    }
}

/// A refresh says what was read: everything about the node but its place in the tree,
/// its relations and its selection is what the read alone makes of it.
pub proof fn law_a_refresh_says_what_was_read(
    fresh: MirrorNode,
    children: Seq<Seq<char>>,
    ids: Map<Seq<char>, NodeId>,
    cache: WindowCacheView,
)
    ensures
        ({
            let (node, own) = (refreshed(fresh, children, ids, cache), container_of(fresh));
            node == NodeView {
                props: Properties {
                    error_message: node.props.error_message,
                    text_selection: node.props.text_selection,
                    ..own.props
                },
                children: node.children,
                labelled_by: node.labelled_by,
                controls: node.controls,
                described_by: node.described_by,
                details: node.details,
                ..own
            }
        }),
{
    lemma_relations_add_relations(container_of(fresh), fresh.relations@, ids);
}

/// Of each walked text it is remembered which node it is under, with which children and
/// runs, how it was laid out, and whether it has a caret. Of an object without a text
/// nothing is.
pub proof fn law_each_text_is_remembered(
    nodes: Seq<MirrorNode>,
    ids: Map<Seq<char>, NodeId>,
    k: int,
)
    requires
        0 <= k < nodes.len(),
        distinct_paths(nodes),
        object_relations(nodes),
    ensures
        ({
            let after = window_emission(nodes, ids);
            let (node, path) = (nodes[k], nodes[k].path@);
            &&& after.cache.text.contains_key(path) <==> node.text is Some
            &&& node.text matches Some(state) ==> {
                let text = after.cache.text[path];
                &&& text.node_id == after.ids[path]
                &&& text.element_children + node_ids(text.runs)
                    == after.cache.nodes[path].children
                &&& text.runs == run_nodes(
                    after.ids,
                    path,
                    state.text@,
                    list_view(state.extents),
                    node.bounds,
                )
                &&& text.layout == run_layout(after.ids, path, state.text@)
                &&& text.caret_enabled == has_caret(node.role)
                &&& text.extents == list_view(state.extents)
                &&& text.container_bounds == node.bounds
            }
        }),
{
    let start = Emission {
        ids: with_paths(ids, paths_of(nodes)),
        out: Seq::empty(),
        cache: empty_cache(),
        focus: None,
    };
    let walked = paths_of(nodes).to_set();
    let lists = child_lists(nodes);
    let after = window_emission(nodes, ids);
    let node = nodes[k];
    lemma_window_covered(nodes, ids);
    assert(nodes.take(nodes.len() as int) =~= nodes);
    lemma_cache_later(start, nodes, lists, walked, nodes);
    lemma_emission_ids(start, nodes, lists, walked, false);
    lemma_extends_covers(start.ids, after.ids, walked);
    lemma_kept_known(lists[k], walked, after.ids);
    lemma_with_paths_known(after.ids, kept(lists[k], walked));
    assert(remembered(after.cache, node, lists[k], after.ids, walked));
    lemma_all_runs_known(start.ids, nodes, k);
    lemma_with_paths_known(after.ids, runs_under(node));
}

/// A text that is read again is built as a walk builds it: with a run for each line, laid
/// out by its extents in the same bounds, and with the selection of the read. A text that
/// is not remembered is not built at all.
pub proof fn law_a_rebuilt_text_is_built_as_a_walk_builds_it(
    cache: WindowCacheView,
    path: Seq<char>,
    state: TextState,
    ids: Map<Seq<char>, NodeId>,
)
    ensures
        ({
            let rebuilt = text_rebuilt(cache, path, state, ids);
            let (before, after) = (cache.text[path], rebuilt.cache.text[path]);
            let known = cache.text.contains_key(path) && cache.nodes.contains_key(path);
            &&& known ==> {
                &&& rebuilt.ids == with_paths(ids, paths_of_runs(path, lines(state.text@).len()))
                &&& after.runs == run_nodes(
                    rebuilt.ids,
                    path,
                    state.text@,
                    after.extents,
                    before.container_bounds,
                )
                &&& after.layout == run_layout(rebuilt.ids, path, state.text@)
                &&& rebuilt.cache.nodes[path].props.text_selection == selection_of(
                    state.caret,
                    state.selection,
                    after.layout,
                )
            }
            &&& !known ==> rebuilt.cache == cache && rebuilt.ids == ids && rebuilt.changed.len()
                == 0
        }),
{
}

#[verifier::rlimit(40)]
proof fn lemma_cache_spliced(
    start: Emission,
    nodes: Seq<MirrorNode>,
    lists: Seq<Seq<Seq<char>>>,
    walked: Set<Seq<char>>,
    all: Seq<MirrorNode>,
)
    requires
        covers(start.ids, walked),
        all_known(start.ids, paths_of(all)),
        object_relations(all),
        distinct_paths(all),
        nodes.len() <= all.len(),
        nodes.len() == lists.len(),
        nodes == all.take(nodes.len() as int),
    ensures
        ({
            let later = with_paths(start.ids, all_runs(all));
            let after = emit_all(start, nodes, lists, walked, true);
            &&& forall|k: int|
                0 <= k < nodes.len() ==> remembered(
                    after.cache,
                    #[trigger] nodes[k],
                    lists[k],
                    later,
                    walked,
                )
            &&& forall|p: Seq<char>|
                !(#[trigger] paths_of(nodes).contains(p)) ==> {
                    &&& after.cache.nodes.contains_key(p) == start.cache.nodes.contains_key(p)
                    &&& after.cache.nodes[p] == start.cache.nodes[p]
                    &&& after.cache.text.contains_key(p) == start.cache.text.contains_key(p)
                    &&& after.cache.text[p] == start.cache.text[p]
                }
        }),
    decreases nodes.len(),
{
    let later = with_paths(start.ids, all_runs(all));
    let after = emit_all(start, nodes, lists, walked, true);
    if nodes.len() > 0 {
        let init = nodes.drop_last();
        let node = nodes.last();
        let last = nodes.len() - 1;
        assert(init =~= all.take(init.len() as int));
        lemma_known_prefix(start.ids, all, nodes.len() as int);
        lemma_known_init(start.ids, nodes);
        lemma_cache_spliced(start, init, lists.drop_last(), walked, all);
        lemma_emission_ids(start, init, lists.drop_last(), walked, true);
        let before = emit_all(start, init, lists.drop_last(), walked, true);
        lemma_extends_covers(start.ids, before.ids, walked);
        lemma_runs_split(all, init.len() as int);
        lemma_runs_split(all, nodes.len() as int);
        let rest = all.skip(init.len() as int);
        let beyond = all.skip(nodes.len() as int);
        lemma_with_paths_concat(start.ids, all_runs(init), all_runs(rest));
        lemma_with_paths_concat(start.ids, all_runs(nodes), all_runs(beyond));
        lemma_with_paths_concat(start.ids, all_runs(init), runs_under(node));
        let given = with_paths(before.ids, runs_under(node));
        assert(with_paths(before.ids, all_runs(rest)) == later);
        assert(with_paths(given, all_runs(beyond)) == later);
        lemma_with_paths_extends(given, all_runs(beyond));
        lemma_with_paths_extends(before.ids, all_runs(rest));
        assert(all[last] == node);
        lemma_built_later(node, lists.last(), before.ids[node.path@], before.ids, rest, walked);
        assert(later[node.path@] == before.ids[node.path@]);
        assert forall|k: int| 0 <= k < last implies nodes[k].path@ != node.path@ by {
            assert(all[k].path@ != all[last].path@);
            assert(all[k] == nodes[k]);
        }
        assert forall|k: int| 0 <= k < nodes.len() implies remembered(
            after.cache,
            #[trigger] nodes[k],
            lists[k],
            later,
            walked,
        ) by {
            if k < last {
                assert(init[k] == nodes[k]);
                assert(remembered(before.cache, init[k], lists.drop_last()[k], later, walked));
            }
        }
        assert forall|p: Seq<char>| !(#[trigger] paths_of(nodes).contains(p)) implies {
            &&& after.cache.nodes.contains_key(p) == start.cache.nodes.contains_key(p)
            &&& after.cache.nodes[p] == start.cache.nodes[p]
            &&& after.cache.text.contains_key(p) == start.cache.text.contains_key(p)
            &&& after.cache.text[p] == start.cache.text[p]
        } by {
            assert(paths_of(nodes)[last] == node.path@);
            if paths_of(init).contains(p) {
                let j = paths_of(init).index_of(p);
                assert(paths_of(nodes)[j] == p);
            }
        }
    }
}

/// Every node of a chain is emitted as it was read, with all the children it is spliced
/// with, in their order, and its runs behind them. What was remembered of its text is
/// replaced, or forgotten if it has none any more; nothing else that is remembered is
/// touched.
pub proof fn law_a_spliced_chain_is_emitted_as_it_was_read(
    chain: Seq<MirrorNode>,
    ancestor_children: Seq<Seq<char>>,
    known: Set<Seq<char>>,
    ids: Map<Seq<char>, NodeId>,
    cache: WindowCacheView,
    k: int,
    other: Seq<char>,
)
    requires
        0 <= k < chain.len(),
        distinct_paths(chain),
        object_relations(chain),
        forall|p: Seq<char>| #[trigger] known.contains(p) ==> ids.contains_key(p),
        forall|i: int|
            0 <= i < ancestor_children.len() ==> ids.contains_key(#[trigger] ancestor_children[i]),
        !paths_of(chain).contains(other),
    ensures
        ({
            let after = splice_emission(chain, ancestor_children, known, ids, cache);
            let (node, own) = (chain[k], container_of(chain[k]));
            let related = with_relations(own, node.relations@, after.ids);
            let path = node.path@;
            let emitted = after.cache.nodes[path];
            let list = spliced_children(chain, ancestor_children, known, k);
            &&& after.out.contains((after.ids[path], emitted))
            &&& emitted.children.len() == list.len() + runs_under(node).len()
            &&& forall|i: int|
                0 <= i < list.len() ==> #[trigger] emitted.children[i] == after.ids[list[i]]
            &&& forall|i: int|
                0 <= i < runs_under(node).len() ==> emitted.children[list.len() + i]
                    == after.ids[#[trigger] runs_under(node)[i]]
            &&& emitted == NodeView {
                props: Properties {
                    text_selection: emitted.props.text_selection,
                    ..related.props
                },
                children: emitted.children,
                ..related
            }
            &&& after.cache.text.contains_key(path) <==> node.text is Some
            &&& node.text matches Some(state) ==> after.cache.text[path].runs == run_nodes(
                after.ids,
                path,
                state.text@,
                list_view(state.extents),
                node.bounds,
            )
            &&& after.cache.nodes.contains_key(other) == cache.nodes.contains_key(other)
            &&& after.cache.nodes[other] == cache.nodes[other]
            &&& after.cache.text.contains_key(other) == cache.text.contains_key(other)
            &&& after.cache.text[other] == cache.text[other]
        }),
{
    let walked = splice_scope(chain, ancestor_children, known);
    let lists = spliced_lists(chain, ancestor_children, known);
    let start = Emission {
        ids: with_paths(ids, paths_of(chain)),
        out: Seq::empty(),
        cache,
        focus: None,
    };
    let after = splice_emission(chain, ancestor_children, known, ids, cache);
    let node = chain[k];
    lemma_window_covered(chain, ids);
    lemma_with_paths_extends(ids, paths_of(chain));
    assert(covers(start.ids, walked)) by {
        assert forall|p: Seq<char>| #[trigger] walked.contains(p) implies start.ids.contains_key(
            p,
        ) by {
            if ancestor_children.to_set().contains(p) {
                let i = ancestor_children.index_of(p);
                assert(ids.contains_key(ancestor_children[i]));
            } else if paths_of(chain).to_set().contains(p) {
                let i = paths_of(chain).index_of(p);
                assert(start.ids.contains_key(paths_of(chain)[i]));
            } else {
                assert(ids.contains_key(p));
            }
        }
    }
    assert(chain.take(chain.len() as int) =~= chain);
    lemma_cache_spliced(start, chain, lists, walked, chain);
    lemma_emission_ids(start, chain, lists, walked, true);
    lemma_emission_later(start, chain, lists, walked, true, chain);
    lemma_extends_covers(start.ids, after.ids, walked);
    let list = lists[k];
    lemma_spliced_in_scope(chain, ancestor_children, known, k);
    lemma_kept_all(list, walked);
    lemma_kept_known(list, walked, after.ids);
    lemma_with_paths_known(after.ids, list);
    assert(remembered(after.cache, node, list, after.ids, walked));
    lemma_all_runs_known(start.ids, chain, k);
    lemma_with_paths_known(after.ids, runs_under(node));
    lemma_relations_add_relations(container_of(node), node.relations@, after.ids);
    let b = built(node, list, after.ids[node.path@], after.ids, walked);
    let p = lemma_container_built(chain, lists, after.ids, walked, k);
    assert(after.out[p] == (after.ids[node.path@], b.container));
    match node.text {
        Some(state) => {
            let runs = runs_under(node);
            assert forall|i: int| 0 <= i < runs.len() implies b.container.children[list.len() + i]
                == after.ids[#[trigger] runs[i]] by {
                assert(node_ids(b.runs)[i] == b.runs[i].0);
            }
        },
        None => {},
    }
}

proof fn lemma_spliced_in_scope(
    chain: Seq<MirrorNode>,
    ancestor_children: Seq<Seq<char>>,
    known: Set<Seq<char>>,
    i: int,
)
    requires
        0 <= i < chain.len(),
    ensures
        forall|j: int|
            0 <= j < spliced_children(chain, ancestor_children, known, i).len() ==> splice_scope(
                chain,
                ancestor_children,
                known,
            ).contains(#[trigger] spliced_children(chain, ancestor_children, known, i)[j]),
{
    let scope = known.union(paths_of(chain).to_set());
    let list = spliced_children(chain, ancestor_children, known, i);
    lemma_kept_is_filter(views(chain[i].children@), scope);
    assert forall|j: int| 0 <= j < list.len() implies splice_scope(
        chain,
        ancestor_children,
        known,
    ).contains(#[trigger] list[j]) by {
        let own = if i == 0 {
            ancestor_children
        } else {
            kept(views(chain[i].children@), scope)
        };
        if j < own.len() {
            assert(list[j] == own[j]);
            if i == 0 {
                assert(ancestor_children.to_set().contains(own[j]));
            } else {
                views(chain[i].children@).lemma_filter_pred(
                    |p: Seq<char>| scope.contains(p),
                    j,
                );
            }
        } else {
            assert(paths_of(chain)[i + 1] == list[j]);
            assert(paths_of(chain).to_set().contains(list[j]));
        }
    }
}

proof fn lemma_kept_all(paths: Seq<Seq<char>>, set: Set<Seq<char>>)
    requires
        forall|j: int| 0 <= j < paths.len() ==> set.contains(#[trigger] paths[j]),
    ensures
        kept(paths, set) == paths,
    decreases paths.len(),
{
    if paths.len() > 0 {
        let init = paths.drop_last();
        assert forall|j: int| 0 <= j < init.len() implies set.contains(#[trigger] init[j]) by {
            assert(init[j] == paths[j]);
        }
        lemma_kept_all(init, set);
        assert(set.contains(paths[paths.len() - 1]));
        assert(init.push(paths.last()) =~= paths);
    }
}

proof fn lemma_container_built(
    nodes: Seq<MirrorNode>,
    lists: Seq<Seq<Seq<char>>>,
    ids: Map<Seq<char>, NodeId>,
    walked: Set<Seq<char>>,
    k: int,
) -> (p: int)
    requires
        0 <= k < nodes.len(),
        nodes.len() == lists.len(),
    ensures
        0 <= p < all_built(nodes, lists, ids, walked).len(),
        all_built(nodes, lists, ids, walked)[p] == (
            ids[nodes[k].path@],
            built(nodes[k], lists[k], ids[nodes[k].path@], ids, walked).container,
        ),
    decreases nodes.len(),
{
    let (init, first) = (nodes.drop_last(), lists.drop_last());
    let before = all_built(init, first, ids, walked);
    if k < nodes.len() - 1 {
        assert(init[k] == nodes[k] && first[k] == lists[k]);
        let p = lemma_container_built(init, first, ids, walked, k);
        assert(all_built(nodes, lists, ids, walked)[p] == before[p]);
        p
    } else {
        before.len() as int
    }
}

} // verus!
