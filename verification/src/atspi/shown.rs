//! Focus only ever names a node that the consumer holds.
//!
//! A consumer cannot apply an update whose focus it does not know, so every way
//! in which the mirror changes keeps each window's focus on a node of its current
//! tree.

use crate::atspi::bridge::reaction;
use crate::atspi::bridge::AtspiEvent;
use crate::atspi::bridge::ReactionView;
use crate::atspi::ids::all_known;
use crate::atspi::ids::extends;
use crate::atspi::ids::lemma_with_paths_extends;
use crate::atspi::ids::with_paths;
use crate::atspi::node::MirrorNode;
use crate::atspi::node::TextState;
use crate::atspi::source::focus_moved;
use crate::atspi::source::ids_given;
use crate::atspi::source::law_retired_windows_are_gone;
use crate::atspi::source::objects_of;
use crate::atspi::source::rebuilt_window;
use crate::atspi::source::retired;
use crate::atspi::source::showing;
use crate::atspi::source::text_events;
use crate::atspi::source::with_id;
use crate::atspi::source::with_text_state;
use crate::atspi::source::MirrorView;
use crate::atspi::source::WindowView;
use crate::atspi::window::child_lists;
use crate::atspi::window::emit_all;
use crate::atspi::window::lemma_built_extends;
use crate::atspi::window::paths_of;
use crate::atspi::window::window_emission;
use crate::atspi::window::window_update;
use crate::atspi::window::Emission;
use crate::messages::WindowId;
use crate::search::find_first;
use crate::search::first_match;
use crate::search::lemma_found;
use crate::source::SourceEventView;
use crate::tree::node_ids;
use crate::tree::NodeId;
use vstd::prelude::*;

verus! {

/// Whether a node is in a window's current tree.
pub open spec fn shows(window: WindowView, node: NodeId) -> bool {
    window.objects.contains_key(node.0)
}

/// Whether every window's focus is on a node of its current tree.
pub open spec fn focus_shown(mirror: MirrorView) -> bool {
    forall|i: int|
        0 <= i < mirror.windows.len() ==> shows(
            #[trigger] mirror.windows[i],
            mirror.windows[i].focus,
        )
}

/// Whether an event asks a consumer to focus nothing but nodes of the current tree
/// of the window it is about.
pub open spec fn focuses_shown(mirror: MirrorView, event: SourceEventView) -> bool {
    event matches SourceEventView::TreeUpdate { window, update } ==> exists|i: int|
        0 <= i < mirror.windows.len() && (#[trigger] mirror.windows[i]).id == window && shows(
            mirror.windows[i],
            update.focus,
        )
}

/// What has been built of a window: ids are only added, every node built so far is
/// emitted, and the node with focus, if there is one, is one of them.
proof fn lemma_emitted(
    start: Emission,
    nodes: Seq<MirrorNode>,
    lists: Seq<Seq<Seq<char>>>,
    walked: Set<Seq<char>>,
    forget: bool,
)
    requires
        all_known(start.ids, paths_of(nodes)),
        start.focus is None,
        nodes.len() == lists.len(),
    ensures
        ({
            let built = emit_all(start, nodes, lists, walked, forget);
            &&& extends(built.ids, start.ids)
            &&& built.focus matches Some(id) ==> exists|i: int|
                0 <= i < nodes.len() && id == start.ids[(#[trigger] nodes[i]).path@]
            &&& forall|i: int|
                0 <= i < nodes.len() ==> node_ids(built.out).contains(
                    start.ids[(#[trigger] nodes[i]).path@],
                )
        }),
    decreases nodes.len(),
{
    if nodes.len() > 0 {
        let (init, n) = (nodes.drop_last(), nodes.len() - 1);
        let path = nodes.last().path@;
        assert forall|i: int| 0 <= i < init.len() implies start.ids.contains_key(
            #[trigger] paths_of(init)[i],
        ) by {
            assert(paths_of(nodes)[i] == paths_of(init)[i]);
        }
        assert(paths_of(nodes)[n] == path);
        lemma_emitted(start, init, lists.drop_last(), walked, forget);
        let before = emit_all(start, init, lists.drop_last(), walked, forget);
        let after = emit_all(start, nodes, lists, walked, forget);
        let id = before.ids[path];
        assert(start.ids.contains_key(path) && id == start.ids[path]);
        lemma_built_extends(nodes.last(), lists.last(), id, before.ids, walked);
        assert forall|p: Seq<char>| #[trigger] start.ids.contains_key(p) implies
            after.ids.contains_key(p) && after.ids[p] == start.ids[p] by {
            assert(before.ids.contains_key(p));
        }
        match before.focus {
            Some(focused) => {
                let i = choose|i: int|
                    0 <= i < init.len() && focused == start.ids[(#[trigger] init[i]).path@];
                assert(nodes[i] == init[i]);
            },
            None => {},
        }
        assert(nodes[n] == nodes.last());
        assert forall|i: int| 0 <= i < nodes.len() implies node_ids(after.out).contains(
            start.ids[(#[trigger] nodes[i]).path@],
        ) by {
            let b = before.out.len() as int;
            if i < n {
                assert(nodes[i] == init[i]);
                let wanted = start.ids[nodes[i].path@];
                let k = node_ids(before.out).index_of(wanted);
                assert(node_ids(before.out)[k] == wanted);
                assert(after.out[k] == before.out[k]);
                assert(node_ids(after.out)[k] == wanted);
            } else {
                assert(after.out[b].0 == id);
                assert(node_ids(after.out)[b] == id);
            }
        }
    }
}

proof fn lemma_indexed(
    nodes: Seq<MirrorNode>,
    tokens: Seq<u64>,
    ids: Map<Seq<char>, NodeId>,
    i: int,
)
    requires
        nodes.len() == tokens.len(),
        0 <= i < nodes.len(),
        ids.contains_key(nodes[i].path@),
    ensures
        objects_of(nodes, tokens, ids).contains_key(ids[nodes[i].path@].0),
    decreases nodes.len(),
{
    if i < nodes.len() - 1 {
        lemma_indexed(nodes.drop_last(), tokens.drop_last(), ids, i);
        assert(nodes.drop_last()[i] == nodes[i]);
    }
}

/// A walk puts focus on a node that it emits, and that the window shows; and it
/// emits the node it is rooted in.
pub proof fn law_a_walk_focuses_a_node_it_shows(
    window: WindowView,
    nodes: Seq<MirrorNode>,
    tokens: Seq<u64>,
)
    requires
        nodes.len() > 0,
        nodes.len() == tokens.len(),
    ensures
        ({
            let after = rebuilt_window(window, nodes, tokens);
            let update = window_update(nodes, window.ids);
            &&& after.focus == update.focus
            &&& shows(after, after.focus)
            &&& node_ids(update.nodes).contains(update.focus)
            &&& update.tree matches Some(tree) && node_ids(update.nodes).contains(tree.root)
        }),
{
    let paths = paths_of(nodes);
    let known = with_paths(window.ids, paths);
    let start = Emission {
        ids: known,
        out: Seq::empty(),
        cache: crate::atspi::mapping::empty_cache(),
        focus: None,
    };
    lemma_with_paths_extends(window.ids, paths);
    assert forall|i: int| 0 <= i < paths.len() implies known.contains_key(#[trigger] paths[i]) by {
        assert(paths.to_set().contains(paths[i]));
    }
    lemma_emitted(start, nodes, child_lists(nodes), paths.to_set(), false);
    let emission = window_emission(nodes, window.ids);
    let i = match emission.focus {
        Some(id) => choose|i: int|
            0 <= i < nodes.len() && id == known[(#[trigger] nodes[i]).path@],
        None => 0,
    };
    assert(paths[i] == nodes[i].path@);
    assert(known.contains_key(nodes[i].path@));
    lemma_indexed(nodes, tokens, emission.ids, i);
    assert(window_update(nodes, window.ids).focus == known[nodes[i].path@]);
    assert(node_ids(emission.out).contains(known[nodes[0].path@]));
}

/// Walking one window again keeps every window's focus on a node it shows.
pub proof fn law_a_walk_keeps_focus_shown(
    mirror: MirrorView,
    i: int,
    nodes: Seq<MirrorNode>,
    tokens: Seq<u64>,
)
    requires
        focus_shown(mirror),
        0 <= i < mirror.windows.len(),
        nodes.len() > 0,
        nodes.len() == tokens.len(),
    ensures
        focus_shown(
            MirrorView {
                windows: mirror.windows.update(
                    i,
                    rebuilt_window(mirror.windows[i], nodes, tokens),
                ),
                ..mirror
            },
        ),
{
    law_a_walk_focuses_a_node_it_shows(mirror.windows[i], nodes, tokens);
}

/// Where focus is moved to an object, the window that shows it is the one whose
/// focus changes.
proof fn lemma_moved(mirror: MirrorView, sender: Seq<char>, path: Seq<char>, i: int)
    requires
        ids_given(mirror),
        focus_shown(mirror),
        find_first(mirror.windows, showing(sender, path)) == Some(i),
    ensures
        ({
            let window = mirror.windows[i];
            let after = focus_moved(mirror, window.id, window.ids[path]);
            &&& 0 <= i < mirror.windows.len()
            &&& focus_shown(after)
            &&& after.windows.len() == mirror.windows.len()
            &&& after.windows[i].id == window.id
            &&& shows(after.windows[i], window.ids[path])
        }),
{
    assert(first_match(mirror.windows, showing(sender, path), i));
    let window = mirror.windows[i];
    assert(showing(sender, path)(window));
    assert forall|j: int| 0 <= j < i implies !with_id(window.id)(
        #[trigger] mirror.windows[j],
    ) by {
        assert(mirror.windows[j].id != mirror.windows[i].id);
    }
    assert(with_id(window.id)(window));
    lemma_found(mirror.windows, with_id(window.id), i);
}

/// However a signal is reflected, focus stays on nodes that are shown, and nothing
/// that is reported at once asks for another.
pub proof fn law_signals_keep_focus_shown(mirror: MirrorView, event: AtspiEvent)
    requires
        ids_given(mirror),
        focus_shown(mirror),
    ensures
        ({
            let (after, outcome) = reaction(mirror, event);
            &&& focus_shown(after)
            &&& outcome matches ReactionView::Report(events) ==> forall|k: int|
                0 <= k < events.len() ==> focuses_shown(after, #[trigger] events[k])
        }),
{
    let (sender, path) = match event {
        AtspiEvent::StateChanged { sender, path, .. } => (sender@, path@),
        AtspiEvent::ActiveDescendantChanged { sender, descendant } => (sender@, descendant@),
        _ => (Seq::empty(), Seq::empty()),
    };
    let (after, outcome) = reaction(mirror, event);
    match find_first(mirror.windows, showing(sender, path)) {
        Some(i) => {
            lemma_moved(mirror, sender, path, i);
            match outcome {
                ReactionView::Report(events) => {
                    if events.len() > 0 {
                        assert(after.windows[i].id == mirror.windows[i].id);
                        assert(focuses_shown(after, events[0]));
                    }
                },
                _ => {},
            }
        },
        None => {},
    }
}

/// A text that is read again leaves focus where it is, and what is reported of it
/// restates that focus.
pub proof fn law_texts_keep_focus_shown(
    mirror: MirrorView,
    i: int,
    path: Seq<char>,
    state: TextState,
)
    requires
        focus_shown(mirror),
        0 <= i < mirror.windows.len(),
    ensures
        ({
            let window = mirror.windows[i];
            let after = MirrorView {
                windows: mirror.windows.update(i, with_text_state(window, path, state)),
                ..mirror
            };
            &&& focus_shown(after)
            &&& forall|k: int|
                0 <= k < text_events(window, path, state).len() ==> focuses_shown(
                    after,
                    #[trigger] text_events(window, path, state)[k],
                )
        }),
{
    let window = mirror.windows[i];
    let after = MirrorView {
        windows: mirror.windows.update(i, with_text_state(window, path, state)),
        ..mirror
    };
    assert(shows(mirror.windows[i], window.focus));
    assert(after.windows[i].id == window.id && shows(after.windows[i], window.focus));
}

/// Windows that are retired leave the focus of the others where it is.
pub proof fn law_retirement_keeps_focus_shown(mirror: MirrorView, gone: Seq<WindowId>)
    requires
        focus_shown(mirror),
    ensures
        focus_shown(retired(mirror, gone)),
{
    law_retired_windows_are_gone(mirror, gone);
    let after = retired(mirror, gone);
    assert forall|i: int| 0 <= i < after.windows.len() implies shows(
        #[trigger] after.windows[i],
        after.windows[i].focus,
    ) by {
        let j = mirror.windows.index_of(after.windows[i]);
        assert(mirror.windows[j] == after.windows[i]);
    }
}

} // verus!
