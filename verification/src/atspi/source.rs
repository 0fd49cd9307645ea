//! The state of a source that mirrors the accessibility bus, and how each signal
//! and each action changes it. The bus calls are the caller's: what a call is
//! needed for is returned, and its outcome handed back in.

use crate::atspi::focus::FocusTracker;
use crate::atspi::ids::extends;
use crate::atspi::ids::id_table;
use crate::atspi::ids::lemma_with_paths_table;
use crate::atspi::ids::NodeIdMap;
use crate::atspi::laws::all_runs;
use crate::atspi::laws::distinct_paths;
use crate::atspi::laws::law_a_rebuilt_text_reaches_the_consumer;
use crate::atspi::laws::law_a_rebuilt_text_sends_nothing_else;
use crate::atspi::laws::law_cache_holds_exactly_the_emitted_containers;
use crate::atspi::laws::law_only_walked_paths_and_runs_get_ids;
use crate::atspi::laws::values_of;
use crate::atspi::mapping::WindowCache;
use crate::atspi::mapping::WindowCacheView;
use crate::atspi::node::MirrorNode;
use crate::atspi::node::TextState;
use crate::atspi::reconcile::key_views;
use crate::atspi::reconcile::reconcile_windows;
use crate::atspi::reconcile::WindowKey;
use crate::atspi::text::checked_text_offset;
use crate::atspi::text::offset_of;
use crate::atspi::window::build_window_update;
use crate::atspi::window::focus_update;
use crate::atspi::window::paths_of;
use crate::atspi::window::rebuild_text_node;
use crate::atspi::window::text_rebuilt;
use crate::atspi::window::window_emission;
use crate::atspi::window::window_update;
use crate::lines::lines;
use crate::messages::WindowId;
use crate::reconcile::lemma_missing_below;
use crate::reconcile::missing;
use crate::reconcile::WindowDiff;
use crate::search::find_first;
use crate::search::first_match;
use crate::search::lemma_found;
use crate::search::lemma_not_found;
use crate::search::lemma_some_first;
use crate::source::event_views;
use crate::source::lemma_event_push;
use crate::source::SourceEvent;
use crate::source::SourceEventView;
use crate::source::WindowDescriptor;
use crate::strings::same;
use crate::tree::node_views;
use crate::tree::Action;
use crate::tree::Node;
use crate::tree::NodeId;
use crate::tree::TextPosition;
use crate::tree::TextSelection;
use crate::tree::TreeUpdate;
use crate::tree::TreeUpdateView;
use std::collections::HashMap;
use vstd::prelude::*;

verus! {

/// How often, in milliseconds, the windows held are reconciled against a fresh
/// discovery, to catch lifecycle signals that were missed.
pub const RECONCILE_INTERVAL: u64 = 60_000;

/// How long, in milliseconds, a burst of deep changes must have been quiet before
/// the window is walked again.
pub const REWALK_DEBOUNCE_QUIET: u64 = 250;

/// A window is walked again at most this many milliseconds after the first event
/// of a burst, even while events keep arriving.
pub const REWALK_DEBOUNCE_MAX_DELAY: u64 = 2_000;

/// The path of the bus's root objects. Each application has its root here, and
/// the registry has the list of applications here, so children changing at this
/// path means that a toplevel was added or an application removed.
pub const ATSPI_ROOT_PATH: &'static str = "/org/a11y/atspi/accessible/root";

// ---------------------------------------------------------------- windows

/// An object on the bus: the name of its application, if it has one, and its
/// path.
#[derive(Debug, Clone, PartialEq, Eq)]
pub struct ObjectName {
    pub bus_name: Option<String>,
    pub path: String,
}

impl View for ObjectName {
    type V = (Option<Seq<char>>, Seq<char>);

    open spec fn view(&self) -> (Option<Seq<char>>, Seq<char>) {
        (
            match self.bus_name {
                Some(name) => Some(name@),
                None => None,
            },
            self.path@,
        )
    }
}

impl ObjectName {
    /// Whether the object is one of the application at `sender`.
    pub fn is_of(&self, sender: &str) -> (of: bool)
        ensures
            of == (self@.0 == Some(sender@)),
    {
        match &self.bus_name {
            Some(name) => same(name.as_str(), sender),
            None => false,
        }
    }
}

/// An object that was walked: its path, and the caller's token for it.
#[derive(Debug, Clone, PartialEq, Eq)]
pub struct WalkedObject {
    pub path: String,
    pub token: u64,
}

/// One window: its root, the ids of its nodes, the objects of its current tree by
/// node id, the node it last reported as focused, and what it last emitted.
pub struct WindowState {
    pub id: WindowId,
    pub root: ObjectName,
    pub ids: NodeIdMap,
    pub objects: HashMap<u64, WalkedObject>,
    pub focus: NodeId,
    pub cache: WindowCache,
}

/// The contents of a [`WindowState`].
#[verifier::ext_equal]
pub struct WindowView {
    pub id: WindowId,
    pub root: (Option<Seq<char>>, Seq<char>),
    pub ids: Map<Seq<char>, NodeId>,
    pub objects: Map<u64, (Seq<char>, u64)>,
    pub focus: NodeId,
    pub cache: WindowCacheView,
}

/// The contents of a map of objects.
pub open spec fn object_map(objects: Map<u64, WalkedObject>) -> Map<u64, (Seq<char>, u64)> {
    objects.map_values(|o: WalkedObject| (o.path@, o.token))
}

impl View for WindowState {
    type V = WindowView;

    open spec fn view(&self) -> WindowView {
        WindowView {
            id: self.id,
            root: self.root@,
            ids: self.ids@,
            objects: object_map(self.objects@),
            focus: self.focus,
            cache: self.cache@,
        }
    }
}

/// The contents of a list of windows.
pub open spec fn window_views(windows: Seq<WindowState>) -> Seq<WindowView> {
    windows.map_values(|w: WindowState| w@)
}

/// Whether a window is owned by the application at `sender`.
pub open spec fn owned_by(sender: Seq<char>) -> spec_fn(WindowView) -> bool {
    |w: WindowView| w.root.0 == Some(sender)
}

/// Whether a window has an id.
pub open spec fn with_id(id: WindowId) -> spec_fn(WindowView) -> bool {
    |w: WindowView| w.id == id
}

/// Whether an object of the application at `sender` is a node of a window's
/// current tree. It is not enough that it has an id: ids outlive the nodes.
pub open spec fn showing(sender: Seq<char>, path: Seq<char>) -> spec_fn(WindowView) -> bool {
    |w: WindowView|
        w.root.0 == Some(sender) && w.ids.contains_key(path) && w.objects.contains_key(
            w.ids[path].0,
        )
}

/// Whether an object of the application at `sender` is a text of a window.
pub open spec fn texting(sender: Seq<char>, path: Seq<char>) -> spec_fn(WindowView) -> bool {
    |w: WindowView| w.root.0 == Some(sender) && w.cache.text.contains_key(path)
}

/// The objects of a walk, by the ids of their nodes.
pub open spec fn objects_of(
    nodes: Seq<MirrorNode>,
    tokens: Seq<u64>,
    ids: Map<Seq<char>, NodeId>,
) -> Map<u64, (Seq<char>, u64)>
    decreases nodes.len(),
{
    if nodes.len() == 0 {
        Map::empty()
    } else {
        let before = objects_of(nodes.drop_last(), tokens.drop_last(), ids);
        let path = nodes.last().path@;
        if ids.contains_key(path) {
            before.insert(ids[path].0, (path, tokens.last()))
        } else {
            before
        }
    }
}

/// The objects of a walk, by the ids of their nodes, to route actions back.
pub fn index_objects(nodes: &[MirrorNode], tokens: &[u64], ids: &NodeIdMap) -> (objects: HashMap<
    u64,
    WalkedObject,
>)
    requires
        nodes@.len() == tokens@.len(),
    ensures
        object_map(objects@) == objects_of(nodes@, tokens@, ids@),
{
    broadcast use vstd::std_specs::hash::group_hash_axioms;

    let mut objects: HashMap<u64, WalkedObject> = HashMap::new();
    assert(object_map(objects@) =~= Map::<u64, (Seq<char>, u64)>::empty());
    for i in 0..nodes.len()
        invariant
            nodes@.len() == tokens@.len(),
            object_map(objects@) == objects_of(
                nodes@.take(i as int),
                tokens@.take(i as int),
                ids@,
            ),
    {
        assert(nodes@.take(i + 1).drop_last() =~= nodes@.take(i as int));
        assert(tokens@.take(i + 1).drop_last() =~= tokens@.take(i as int));
        match ids.get(nodes[i].path.as_str()) {
            Some(id) => {
                let ghost before = objects@;
                let object = WalkedObject { path: nodes[i].path.clone(), token: tokens[i] };
                objects.insert(id.0, object);
                assert(object_map(objects@) =~= object_map(before).insert(
                    id.0,
                    (nodes@[i as int].path@, tokens@[i as int]),
                ));
            },
            None => {},
        }
    }
    assert(nodes@.take(nodes@.len() as int) =~= nodes@);
    assert(tokens@.take(tokens@.len() as int) =~= tokens@);
    objects
}

/// Where the first window with `id` is.
fn find_window(windows: &[WindowState], id: WindowId) -> (found: Option<usize>)
    ensures
        match found {
            Some(i) => i < windows@.len() && find_first(window_views(windows@), with_id(id)) == Some(
                i as int,
            ),
            None => find_first(window_views(windows@), with_id(id)) is None,
        },
{
    let ghost all = window_views(windows@);
    for i in 0..windows.len()
        invariant
            all == window_views(windows@),
            forall|j: int| 0 <= j < i ==> !with_id(id)(#[trigger] all[j]),
    {
        assert(all[i as int] == windows@[i as int]@);
        if windows[i].id == id {
            proof {
                lemma_found(all, with_id(id), i as int);
            }
            return Some(i);
        }
    }
    proof {
        lemma_not_found(all, with_id(id));
    }
    None
}

/// The window and node that an object of the application at `sender` is. The node
/// must be in the window's current tree: a node pruned since it was first seen is
/// never targeted, for an unknown focus is fatal to a consumer.
pub fn resolve_focus_target(windows: &[WindowState], sender: &str, path: &str) -> (target: Option<
    (WindowId, NodeId),
>)
    ensures
        target == (match find_first(window_views(windows@), showing(sender@, path@)) {
            Some(i) => Some((windows@[i].id, windows@[i].ids@[path@])),
            None => None,
        }),
{
    broadcast use vstd::std_specs::hash::group_hash_axioms;

    let ghost all = window_views(windows@);
    for i in 0..windows.len()
        invariant
            all == window_views(windows@),
            forall|j: int| 0 <= j < i ==> !showing(sender@, path@)(#[trigger] all[j]),
    {
        broadcast use vstd::std_specs::hash::group_hash_axioms;

        assert(all[i as int] == windows@[i as int]@);
        if windows[i].root.is_of(sender) {
            match windows[i].ids.get(path) {
                Some(id) => {
                    if windows[i].objects.contains_key(&id.0) {
                        proof {
                            lemma_found(all, showing(sender@, path@), i as int);
                        }
                        return Some((windows[i].id, id));
                    }
                },
                None => {},
            }
        }
    }
    proof {
        lemma_not_found(all, showing(sender@, path@));
    }
    None
}

// ---------------------------------------------------------------- the mirror

/// Every window held, the id the next one gets, and which one has focus.
pub struct Mirror {
    pub windows: Vec<WindowState>,
    pub next_id: u64,
    pub focus: FocusTracker,
}

/// The contents of a [`Mirror`].
#[verifier::ext_equal]
pub struct MirrorView {
    pub windows: Seq<WindowView>,
    pub next_id: u64,
    pub focus: Option<WindowId>,
}

impl View for Mirror {
    type V = MirrorView;

    open spec fn view(&self) -> MirrorView {
        MirrorView {
            windows: window_views(self.windows@),
            next_id: self.next_id,
            focus: self.focus@,
        }
    }
}

/// Whether each window has an id of its own, below the next one to be given.
pub open spec fn ids_given(mirror: MirrorView) -> bool {
    &&& forall|i: int|
        0 <= i < mirror.windows.len() ==> (#[trigger] mirror.windows[i]).id.0 < mirror.next_id
    &&& forall|i: int, j: int|
        0 <= i < j < mirror.windows.len() ==> (#[trigger] mirror.windows[i]).id != (
        #[trigger] mirror.windows[j]).id
}

/// Those of the windows that `keep` picks, by id.
pub open spec fn ids_where(windows: Seq<WindowView>, keep: spec_fn(WindowView) -> bool) -> Seq<
    WindowId,
>
    decreases windows.len(),
{
    if windows.len() == 0 {
        Seq::empty()
    } else {
        let before = ids_where(windows.drop_last(), keep);
        if keep(windows.last()) {
            before.push(windows.last().id)
        } else {
            before
        }
    }
}

/// The mirror after focus moved to a node.
pub open spec fn focus_moved(mirror: MirrorView, window: WindowId, node: NodeId) -> MirrorView {
    MirrorView {
        windows: match find_first(mirror.windows, with_id(window)) {
            Some(i) => mirror.windows.update(
                i,
                WindowView { focus: node, ..mirror.windows[i] },
            ),
            None => mirror.windows,
        },
        focus: Some(window),
        ..mirror
    }
}

/// An update that moves focus and touches no node.
pub open spec fn focus_only(node: NodeId) -> TreeUpdateView {
    TreeUpdateView { nodes: Seq::empty(), tree: None, focus: node }
}

/// What is reported when focus moves to a node: the move within the window, and
/// the window's own focus if it did not have it.
pub open spec fn focus_events(mirror: MirrorView, window: WindowId, node: NodeId) -> Seq<
    SourceEventView,
> {
    let moved = seq![SourceEventView::TreeUpdate { window, update: focus_only(node) }];
    if mirror.focus == Some(window) {
        moved
    } else {
        moved.push(SourceEventView::FocusChanged(Some(window)))
    }
}

/// A window after it has been walked.
pub open spec fn rebuilt_window(window: WindowView, nodes: Seq<MirrorNode>, tokens: Seq<u64>) -> WindowView {
    let emission = window_emission(nodes, window.ids);
    WindowView {
        ids: emission.ids,
        objects: objects_of(nodes, tokens, emission.ids),
        focus: window_update(nodes, window.ids).focus,
        cache: emission.cache,
        ..window
    }
}

/// A window of which nothing is known but its root.
pub open spec fn blank_window(id: WindowId, root: (Option<Seq<char>>, Seq<char>)) -> WindowView {
    WindowView {
        id,
        root,
        ids: Map::empty(),
        objects: Map::empty(),
        focus: NodeId(0),
        cache: crate::atspi::mapping::empty_cache(),
    }
}

impl Mirror {
    /// The id tables of the windows are in order.
    pub open spec fn wf(&self) -> bool {
        forall|i: int| 0 <= i < self.windows@.len() ==> (#[trigger] self.windows@[i]).ids.wf()
    }

    pub fn new() -> (mirror: Self)
        ensures
            mirror.wf(),
            mirror@ == (MirrorView { windows: Seq::empty(), next_id: 1, focus: None }),
            ids_given(mirror@),
    {
        let mirror = Mirror { windows: Vec::new(), next_id: 1, focus: FocusTracker::new(None) };
        assert(mirror@.windows =~= Seq::<WindowView>::empty());
        mirror
    }

    /// The ids of every window owned by the application at `sender`.
    pub fn windows_of_sender(&self, sender: &str) -> (ids: Vec<WindowId>)
        ensures
            ids@ == ids_where(self@.windows, owned_by(sender@)),
    {
        let ghost all = self@.windows;
        let mut ids: Vec<WindowId> = Vec::new();
        for i in 0..self.windows.len()
            invariant
                all == window_views(self.windows@),
                ids@ == ids_where(all.take(i as int), owned_by(sender@)),
        {
            assert(all.take(i + 1).drop_last() =~= all.take(i as int));
            assert(all.take(i + 1).last() == self.windows@[i as int]@);
            if self.windows[i].root.is_of(sender) {
                ids.push(self.windows[i].id);
            }
        }
        assert(all.take(self.windows@.len() as int) =~= all);
        ids
    }

    /// Moves focus to a node: the window's own focus is kept in step, so that
    /// later partial updates do not carry a stale one.
    pub fn emit_node_focus(&mut self, window: WindowId, node: NodeId) -> (events: Vec<SourceEvent>)
        requires
            old(self).wf(),
        ensures
            final(self).wf(),
            final(self)@ == focus_moved(old(self)@, window, node),
            event_views(events@) == focus_events(old(self)@, window, node),
    {
        let ghost before = self@;
        match find_window(self.windows.as_slice(), window) {
            Some(i) => {
                self.windows[i].focus = node;
                assert(self@.windows =~= before.windows.update(
                    i as int,
                    WindowView { focus: node, ..before.windows[i as int] },
                ));
            },
            None => {},
        }
        let mut events: Vec<SourceEvent> = Vec::new();
        assert(event_views(events@) =~= Seq::<SourceEventView>::empty());
        let moved = SourceEvent::TreeUpdate { window, update: focus_update(node) };
        proof {
            lemma_event_push(events@, moved);
        }
        events.push(moved);
        match self.focus.focus(window) {
            Some(change) => {
                let event = SourceEvent::FocusChanged(change);
                proof {
                    lemma_event_push(events@, event);
                }
                events.push(event);
            },
            None => {},
        }
        assert(event_views(events@) =~= focus_events(before, window, node));
        events
    }

    /// Reflects that focus moved among the descendants of a container. A
    /// descendant that is not in the current tree reports nothing.
    pub fn handle_active_descendant(&mut self, sender: &str, descendant_path: &str) -> (events: Vec<
        SourceEvent,
    >)
        requires
            old(self).wf(),
        ensures
            final(self).wf(),
            match find_first(old(self)@.windows, showing(sender@, descendant_path@)) {
                Some(i) => {
                    let window = old(self)@.windows[i];
                    let node = window.ids[descendant_path@];
                    &&& final(self)@ == focus_moved(old(self)@, window.id, node)
                    &&& event_views(events@) == focus_events(old(self)@, window.id, node)
                },
                None => final(self)@ == old(self)@ && events@.len() == 0,
            },
    {
        match resolve_focus_target(self.windows.as_slice(), sender, descendant_path) {
            Some((window, node)) => self.emit_node_focus(window, node),
            None => Vec::new(),
        }
    }

    /// Rebuilds one window from a fresh walk, with the ids it has. `None`, and
    /// nothing changes, if there is no such window or the walk came up empty.
    pub fn rewalk(&mut self, window: WindowId, nodes: &[MirrorNode], tokens: &[u64]) -> (event:
        Option<SourceEvent>)
        requires
            old(self).wf(),
            nodes@.len() == tokens@.len(),
        ensures
            final(self).wf(),
            match find_first(old(self)@.windows, with_id(window)) {
                Some(i) if nodes@.len() > 0 => {
                    let state = old(self)@.windows[i];
                    &&& final(self)@ == MirrorView {
                        windows: old(self)@.windows.update(
                            i,
                            rebuilt_window(state, nodes@, tokens@),
                        ),
                        ..old(self)@
                    }
                    &&& event matches Some(e) && e@ == SourceEventView::TreeUpdate {
                        window,
                        update: window_update(nodes@, state.ids),
                    }
                },
                _ => final(self)@ == old(self)@ && event is None,
            },
    {
        if nodes.len() == 0 {
            return None;
        }
        let ghost before = self@;
        let i: usize = match find_window(self.windows.as_slice(), window) {
            Some(i) => i,
            None => {
                return None;
            },
        };
        let state = &mut self.windows[i];
        let update: TreeUpdate = build_window_update(nodes, &mut state.ids, &mut state.cache);
        let objects: HashMap<u64, WalkedObject> = index_objects(nodes, tokens, &state.ids);
        state.objects = objects;
        state.focus = update.focus;
        assert(self@.windows =~= before.windows.update(
            i as int,
            rebuilt_window(before.windows[i as int], nodes@, tokens@),
        ));
        Some(SourceEvent::TreeUpdate { window, update })
    }
}

// ---------------------------------------------------------------- windows that come

/// A toplevel that was discovered and walked.
pub struct WalkedWindow {
    pub root: ObjectName,
    /// The window as it is to be announced, but for its id.
    pub descriptor: WindowDescriptor,
    pub active: bool,
    pub nodes: Vec<MirrorNode>,
    pub tokens: Vec<u64>,
}

/// The mirror after a discovered toplevel has been added.
pub open spec fn with_window(
    mirror: MirrorView,
    root: (Option<Seq<char>>, Seq<char>),
    nodes: Seq<MirrorNode>,
    tokens: Seq<u64>,
) -> MirrorView {
    MirrorView {
        windows: mirror.windows.push(
            rebuilt_window(blank_window(WindowId(mirror.next_id), root), nodes, tokens),
        ),
        next_id: (mirror.next_id + 1) as u64,
        ..mirror
    }
}

/// A descriptor with its id.
pub open spec fn announced(descriptor: WindowDescriptor, id: u64) -> WindowDescriptor {
    WindowDescriptor { id: WindowId(id), ..descriptor }
}

impl Mirror {
    /// Adds a discovered toplevel, and returns what to announce it with. `None`,
    /// and nothing is added, if its walk came up empty, so that a window that is
    /// not ready yet is tried again rather than announced broken.
    pub fn add_discovered(&mut self, window: WalkedWindow) -> (added: Option<
        (WindowDescriptor, TreeUpdate),
    >)
        requires
            old(self).wf(),
            old(self).next_id < u64::MAX,
            window.nodes@.len() == window.tokens@.len(),
        ensures
            final(self).wf(),
            window.nodes@.len() == 0 ==> added is None && final(self)@ == old(self)@,
            window.nodes@.len() > 0 ==> {
                &&& final(self)@ == with_window(
                    old(self)@,
                    window.root@,
                    window.nodes@,
                    window.tokens@,
                )
                &&& added matches Some((descriptor, update)) && descriptor == announced(
                    window.descriptor,
                    old(self).next_id,
                ) && update@ == window_update(window.nodes@, Map::empty())
            },
            ids_given(old(self)@) ==> ids_given(final(self)@),
    {
        if window.nodes.len() == 0 {
            return None;
        }
        let ghost before = self@;
        let id = WindowId(self.next_id);
        self.next_id = self.next_id + 1;
        let WalkedWindow { root, descriptor, active, nodes, tokens } = window;
        let mut descriptor: WindowDescriptor = descriptor;
        descriptor.id = id;
        let mut ids = NodeIdMap::new();
        let mut cache = WindowCache::new();
        let update: TreeUpdate = build_window_update(nodes.as_slice(), &mut ids, &mut cache);
        let objects: HashMap<u64, WalkedObject> = index_objects(
            nodes.as_slice(),
            tokens.as_slice(),
            &ids,
        );
        self.windows.push(WindowState { id, root, ids, objects, focus: update.focus, cache });
        assert(self@.windows =~= with_window(before, window.root@, nodes@, tokens@).windows);
        Some((descriptor, update))
    }
}

/// What an enumeration has come to: the mirror, what to announce, and the last
/// active window.
pub struct Enumeration {
    pub mirror: MirrorView,
    pub out: Seq<(WindowDescriptor, TreeUpdateView)>,
    pub active: Option<WindowId>,
}

/// An enumeration of discovered toplevels, in order.
pub open spec fn enumeration(mirror: MirrorView, walked: Seq<WalkedWindow>) -> Enumeration
    decreases walked.len(),
{
    if walked.len() == 0 {
        Enumeration { mirror, out: Seq::empty(), active: None }
    } else {
        let before = enumeration(mirror, walked.drop_last());
        let window = walked.last();
        if window.nodes@.len() == 0 {
            before
        } else {
            Enumeration {
                mirror: with_window(
                    before.mirror,
                    window.root@,
                    window.nodes@,
                    window.tokens@,
                ),
                out: before.out.push(
                    (
                        announced(window.descriptor, before.mirror.next_id),
                        window_update(window.nodes@, Map::empty()),
                    ),
                ),
                active: if window.active {
                    Some(WindowId(before.mirror.next_id))
                } else {
                    before.active
                },
            }
        }
    }
}

/// Which window has focus after an enumeration: the active one, or else the first
/// of all.
pub open spec fn initial_focus(enumerated: Enumeration) -> Option<WindowId> {
    match enumerated.active {
        Some(id) => Some(id),
        None => if enumerated.mirror.windows.len() > 0 {
            Some(enumerated.mirror.windows[0].id)
        } else {
            None
        },
    }
}

/// The contents of what is announced.
pub open spec fn snapshot_views(out: Seq<(WindowDescriptor, TreeUpdate)>) -> Seq<
    (WindowDescriptor, TreeUpdateView),
> {
    out.map_values(|e: (WindowDescriptor, TreeUpdate)| (e.0, e.1@))
}

impl Mirror {
    /// Adds every discovered toplevel, and returns the initial snapshot: the
    /// windows with their whole trees, and the focused one.
    pub fn enumerate(&mut self, walked: Vec<WalkedWindow>) -> (snapshot: (
        Vec<(WindowDescriptor, TreeUpdate)>,
        Option<WindowId>,
    ))
        requires
            old(self).wf(),
            old(self).next_id + walked@.len() <= u64::MAX,
            forall|i: int|
                0 <= i < walked@.len() ==> (#[trigger] walked@[i]).nodes@.len()
                    == walked@[i].tokens@.len(),
        ensures
            final(self).wf(),
            ({
                let enumerated = enumeration(old(self)@, walked@);
                &&& final(self)@ == MirrorView {
                    focus: initial_focus(enumerated),
                    ..enumerated.mirror
                }
                &&& snapshot_views(snapshot.0@) == enumerated.out
                &&& snapshot.1 == initial_focus(enumerated)
            }),
            ids_given(old(self)@) ==> ids_given(final(self)@),
    {
        let ghost (first, all) = (self@, walked@);
        let mut walked: Vec<WalkedWindow> = walked;
        let mut out: Vec<(WindowDescriptor, TreeUpdate)> = Vec::new();
        let mut focus: Option<WindowId> = None;
        assert(snapshot_views(out@) =~= Seq::<(WindowDescriptor, TreeUpdateView)>::empty());
        assert(all.take(0) =~= Seq::<WalkedWindow>::empty());
        assert(all.skip(0) =~= all);
        let ghost mut done: int = 0;
        while walked.len() > 0
            invariant
                0 <= done <= all.len(),
                walked@ == all.skip(done),
                self.wf(),
                self.next_id <= first.next_id + done,
                first.next_id + all.len() <= u64::MAX,
                forall|i: int|
                    0 <= i < all.len() ==> (#[trigger] all[i]).nodes@.len()
                        == all[i].tokens@.len(),
                self@ == enumeration(first, all.take(done)).mirror,
                snapshot_views(out@) == enumeration(first, all.take(done)).out,
                focus == enumeration(first, all.take(done)).active,
                ids_given(first) ==> ids_given(self@),
            decreases walked.len(),
        {
            let ghost next = all.take(done + 1);
            assert(next.drop_last() =~= all.take(done));
            assert(next.last() == walked@[0]);
            assert(walked@[0] == all[done]);
            let window: WalkedWindow = walked.remove(0);
            let active: bool = window.active;
            let ghost shown = out@;
            match self.add_discovered(window) {
                Some((descriptor, update)) => {
                    if active {
                        focus = Some(descriptor.id);
                    }
                    out.push((descriptor, update));
                    assert(snapshot_views(out@) =~= snapshot_views(shown).push(
                        (descriptor, update@),
                    ));
                },
                None => {},
            }
            proof {
                done = done + 1;
                assert(walked@ =~= all.skip(done));
            }
        }
        assert(all.take(done) =~= all);
        if focus.is_none() && self.windows.len() > 0 {
            assert(self@.windows[0] == self.windows@[0]@);
            focus = Some(self.windows[0].id);
        }
        self.focus = FocusTracker::new(focus);
        (out, focus)
    }
}

// ---------------------------------------------------------------- windows that go

/// The identities of a mirror's windows. An application without a name counts
/// under the empty one.
pub open spec fn root_keys(roots: Seq<(Option<Seq<char>>, Seq<char>)>) -> Seq<
    (Seq<char>, Seq<char>),
> {
    roots.map_values(
        |r: (Option<Seq<char>>, Seq<char>)|
            (
                match r.0 {
                    Some(name) => name,
                    None => Seq::empty(),
                },
                r.1,
            ),
    )
}

/// The roots of a mirror's windows.
pub open spec fn roots_of(windows: Seq<WindowView>) -> Seq<(Option<Seq<char>>, Seq<char>)> {
    windows.map_values(|w: WindowView| w.root)
}

/// The roots in a list of names.
pub open spec fn name_views(names: Seq<ObjectName>) -> Seq<(Option<Seq<char>>, Seq<char>)> {
    names.map_values(|n: ObjectName| n@)
}

/// The ids of the windows at `indices`.
pub open spec fn ids_at_indices(windows: Seq<WindowView>, indices: Seq<usize>) -> Seq<WindowId> {
    indices.map_values(|i: usize| windows[i as int].id)
}

/// The windows whose id is not in `gone`, in order.
pub open spec fn windows_without(windows: Seq<WindowView>, gone: Seq<WindowId>) -> Seq<WindowView>
    decreases windows.len(),
{
    if windows.len() == 0 {
        Seq::empty()
    } else {
        let before = windows_without(windows.drop_last(), gone);
        if gone.contains(windows.last().id) {
            before
        } else {
            before.push(windows.last())
        }
    }
}

/// The events that report windows as gone.
pub open spec fn removals(gone: Seq<WindowId>) -> Seq<SourceEventView> {
    gone.map_values(|id: WindowId| SourceEventView::WindowRemoved(id))
}

/// The identity of a toplevel: its application's name and its path.
pub fn window_key(root: &ObjectName) -> (key: WindowKey)
    ensures
        key@ == root_keys(seq![root@])[0],
{
    WindowKey {
        bus_name: match &root.bus_name {
            Some(name) => name.clone(),
            None => String::new(),
        },
        path: root.path.clone(),
    }
}

fn has_window(ids: &Vec<WindowId>, id: WindowId) -> (found: bool)
    ensures
        found == ids@.contains(id),
{
    for i in 0..ids.len()
        invariant
            forall|j: int| 0 <= j < i ==> ids@[j] != id,
    {
        if ids[i] == id {
            assert(ids@[i as int] == id);
            return true;
        }
    }
    false
}

/// The mirror without the windows that are gone. Focus on one of them is dropped
/// in silence: the consumer clears its own.
pub open spec fn retired(mirror: MirrorView, gone: Seq<WindowId>) -> MirrorView {
    MirrorView {
        windows: windows_without(mirror.windows, gone),
        focus: match mirror.focus {
            Some(id) if gone.contains(id) => None,
            _ => mirror.focus,
        },
        ..mirror
    }
}

/// Retiring windows leaves none of them behind, neither held nor focused, keeps
/// the others in order, and frees no id: each window still has one of its own,
/// below the next to be given.
pub proof fn law_retired_windows_are_gone(mirror: MirrorView, gone: Seq<WindowId>)
    ensures
        forall|i: int|
            0 <= i < retired(mirror, gone).windows.len() ==> !gone.contains(
                (#[trigger] retired(mirror, gone).windows[i]).id,
            ) && mirror.windows.contains(retired(mirror, gone).windows[i]),
        retired(mirror, gone).focus matches Some(id) ==> !gone.contains(id),
        ids_given(mirror) ==> ids_given(retired(mirror, gone)),
    decreases mirror.windows.len(),
{
    let after = retired(mirror, gone).windows;
    if mirror.windows.len() > 0 {
        let shorter = MirrorView { windows: mirror.windows.drop_last(), ..mirror };
        law_retired_windows_are_gone(shorter, gone);
        let before = retired(shorter, gone).windows;
        let last = mirror.windows.last();
        let n = mirror.windows.len() - 1;
        assert(mirror.windows[n] == last);
        assert forall|i: int| 0 <= i < after.len() implies !gone.contains(
            (#[trigger] after[i]).id,
        ) && mirror.windows.contains(after[i]) by {
            if i < before.len() {
                assert(after[i] == before[i]);
                let j = shorter.windows.index_of(before[i]);
                assert(mirror.windows[j] == before[i]);
            }
        }
        if ids_given(mirror) {
            assert forall|i: int| 0 <= i < shorter.windows.len() implies (
            #[trigger] shorter.windows[i]).id.0 < shorter.next_id by {
                assert(mirror.windows[i].id.0 < mirror.next_id);
            }
            assert forall|i: int, j: int| 0 <= i < j < shorter.windows.len() implies (
            #[trigger] shorter.windows[i]).id != (#[trigger] shorter.windows[j]).id by {
                assert(mirror.windows[i].id != mirror.windows[j].id);
            }
            assert forall|i: int| 0 <= i < after.len() implies (#[trigger] after[i]).id.0
                < mirror.next_id by {
                if i < before.len() {
                    assert(after[i] == before[i]);
                }
            }
            assert forall|i: int, j: int| 0 <= i < j < after.len() implies (#[trigger] after[i]).id
                != (#[trigger] after[j]).id by {
                if j < before.len() {
                    assert(after[i] == before[i] && after[j] == before[j]);
                } else {
                    assert(after[i] == before[i] && after[j] == last);
                    assert(shorter.windows.contains(before[i]));
                    let k = shorter.windows.index_of(before[i]);
                    assert(mirror.windows[k] == before[i]);
                    assert(mirror.windows[k].id != mirror.windows[n].id);
                }
            }
        }
    }
}

/// Which windows were not discovered again.
pub open spec fn vanished(
    windows: Seq<WindowView>,
    discovered: Seq<(Option<Seq<char>>, Seq<char>)>,
) -> Seq<WindowId> {
    ids_at_indices(
        windows,
        missing(root_keys(roots_of(windows)), root_keys(discovered)),
    )
}

impl Mirror {
    fn keys(&self) -> (keys: Vec<WindowKey>)
        ensures
            key_views(keys@) == root_keys(roots_of(self@.windows)),
    {
        let mut keys: Vec<WindowKey> = Vec::new();
        for i in 0..self.windows.len()
            invariant
                keys@.len() == i,
                forall|j: int|
                    0 <= j < i ==> (#[trigger] keys@[j])@ == root_keys(roots_of(self@.windows))[j],
        {
            let key: WindowKey = window_key(&self.windows[i].root);
            assert(self@.windows[i as int] == self.windows@[i as int]@);
            keys.push(key);
        }
        assert(key_views(keys@) =~= root_keys(roots_of(self@.windows)));
        keys
    }

    fn drop_windows(&mut self, gone: &Vec<WindowId>)
        requires
            old(self).wf(),
        ensures
            final(self).wf(),
            final(self)@ == (MirrorView {
                windows: windows_without(old(self)@.windows, gone@),
                ..old(self)@
            }),
    {
        let ghost all = self@.windows;
        let mut left: Vec<WindowState> = Vec::new();
        assert(window_views(left@) =~= Seq::<WindowView>::empty());
        assert(all.take(0) =~= Seq::<WindowView>::empty());
        assert(all.skip(0) =~= all);
        let ghost mut done: int = 0;
        while self.windows.len() > 0
            invariant
                0 <= done <= all.len(),
                window_views(self.windows@) == all.skip(done),
                self.next_id == old(self).next_id,
                self.focus == old(self).focus,
                self.wf(),
                forall|i: int| 0 <= i < left@.len() ==> (#[trigger] left@[i]).ids.wf(),
                window_views(left@) == windows_without(all.take(done), gone@),
            decreases self.windows.len(),
        {
            let ghost rest = self.windows@;
            assert(window_views(rest)[0] == rest[0]@);
            assert(all.skip(done).len() == rest.len());
            assert(all.skip(done)[0] == all[done]);
            assert(all.take(done + 1).drop_last() =~= all.take(done));
            assert(all.take(done + 1).last() == rest[0]@);
            let window: WindowState = self.windows.remove(0);
            let ghost kept = left@;
            if !has_window(gone, window.id) {
                left.push(window);
                assert(window_views(left@) =~= window_views(kept).push(window@));
            }
            proof {
                done = done + 1;
                assert forall|i: int| 0 <= i < self.windows@.len() implies window_views(
                    self.windows@,
                )[i] == all.skip(done)[i] by {
                    assert(self.windows@[i] == rest[i + 1]);
                    assert(window_views(rest)[i + 1] == all.skip(done - 1)[i + 1]);
                }
                assert(window_views(self.windows@) =~= all.skip(done));
                assert forall|i: int| 0 <= i < self.windows@.len() implies (
                #[trigger] self.windows@[i]).ids.wf() by {
                    assert(self.windows@[i] == rest[i + 1]);
                }
            }
        }
        assert(all.take(done) =~= all);
        self.windows = left;
    }

    /// Drops the windows that were not discovered again, and says which of the
    /// discovered ones are new. No focus change is reported for a window that is
    /// gone.
    pub fn retire(&mut self, discovered: &[ObjectName]) -> (changes: (Vec<SourceEvent>, Vec<usize>))
        requires
            old(self).wf(),
        ensures
            final(self).wf(),
            ({
                let gone = vanished(old(self)@.windows, name_views(discovered@));
                &&& final(self)@ == retired(old(self)@, gone)
                &&& event_views(changes.0@) == removals(gone)
                &&& changes.1@ == missing(
                    root_keys(name_views(discovered@)),
                    root_keys(roots_of(old(self)@.windows)),
                )
            }),
    {
        let ghost before = self@;
        let held: Vec<WindowKey> = self.keys();
        let mut fresh: Vec<WindowKey> = Vec::new();
        for i in 0..discovered.len()
            invariant
                fresh@.len() == i,
                forall|j: int|
                    0 <= j < i ==> (#[trigger] fresh@[j])@ == root_keys(
                        name_views(discovered@),
                    )[j],
        {
            fresh.push(window_key(&discovered[i]));
        }
        assert(key_views(fresh@) =~= root_keys(name_views(discovered@)));
        let diff: WindowDiff = reconcile_windows(held.as_slice(), fresh.as_slice());
        let ghost gone_ids = vanished(before.windows, name_views(discovered@));
        let count: usize = held.len();
        assert(key_views(held@).len() == count);
        assert(roots_of(before.windows).len() == self.windows@.len());
        assert(root_keys(roots_of(before.windows)).len() == self.windows@.len());
        proof {
            lemma_missing_below(key_views(held@), key_views(fresh@));
        }
        let mut gone: Vec<WindowId> = Vec::new();
        let mut events: Vec<SourceEvent> = Vec::new();
        for i in 0..diff.removed.len()
            invariant
                before == self@,
                forall|j: int|
                    0 <= j < diff.removed@.len() ==> (#[trigger] diff.removed@[j])
                        < self.windows@.len(),
                gone_ids == ids_at_indices(before.windows, diff.removed@),
                gone@ == gone_ids.take(i as int),
                events@.len() == i,
                forall|j: int|
                    0 <= j < i ==> (#[trigger] events@[j])@ == SourceEventView::WindowRemoved(
                        gone_ids[j],
                    ),
        {
            let at: usize = diff.removed[i];
            assert(before.windows[at as int] == self.windows@[at as int]@);
            assert(gone_ids[i as int] == self.windows@[at as int].id);
            let id: WindowId = self.windows[at].id;
            gone.push(id);
            assert(gone@ =~= gone_ids.take(i + 1));
            events.push(SourceEvent::WindowRemoved(id));
        }
        assert(gone_ids.take(gone_ids.len() as int) =~= gone_ids);
        assert(event_views(events@) =~= removals(gone_ids));
        self.drop_windows(&gone);
        match self.focus.current() {
            Some(id) => {
                if has_window(&gone, id) {
                    self.focus.remove(id);
                }
            },
            None => {},
        }
        (events, diff.added)
    }
}

// ---------------------------------------------------------------- texts

/// A text to read again: of which window, and whether with its caret.
#[derive(Debug, Clone, Copy, PartialEq, Eq, Structural)]
pub struct TextTarget {
    pub index: usize,
    pub with_caret: bool,
}

/// A window after one of its texts was read again.
pub open spec fn with_text_state(window: WindowView, path: Seq<char>, state: TextState) -> WindowView {
    let rebuilt = text_rebuilt(window.cache, path, state, window.ids);
    WindowView { ids: rebuilt.ids, cache: rebuilt.cache, ..window }
}

/// What is reported of a text that was read again: the nodes that changed, if
/// any did, with the focus the window has.
pub open spec fn text_events(window: WindowView, path: Seq<char>, state: TextState) -> Seq<
    SourceEventView,
> {
    let changed = text_rebuilt(window.cache, path, state, window.ids).changed;
    if changed.len() == 0 {
        Seq::empty()
    } else {
        seq![
            SourceEventView::TreeUpdate {
                window: window.id,
                update: TreeUpdateView { nodes: changed, tree: None, focus: window.focus },
            },
        ]
    }
}

impl Mirror {
    /// Which window has an object as a text, if one of that application does:
    /// unrelated objects and unknown applications cost no bus call.
    pub fn text_target(&self, item: &ObjectName) -> (target: Option<TextTarget>)
        ensures
            match item@.0 {
                Some(sender) => match find_first(self@.windows, texting(sender, item@.1)) {
                    Some(i) => target matches Some(t) && t.index == i && t.with_caret
                        == self@.windows[i].cache.text[item@.1].caret_enabled,
                    None => target is None,
                },
                None => target is None,
            },
    {
        let sender: &String = match &item.bus_name {
            Some(sender) => sender,
            None => {
                return None;
            },
        };
        let ghost wanted = texting(sender@, item.path@);
        let ghost all = self@.windows;
        for i in 0..self.windows.len()
            invariant
                all == window_views(self.windows@),
                wanted == texting(sender@, item.path@),
                item@.0 == Some(sender@),
                forall|j: int| 0 <= j < i ==> !wanted(#[trigger] all[j]),
        {
            assert(all[i as int] == self.windows@[i as int]@);
            if self.windows[i].root.is_of(sender.as_str()) {
                match self.windows[i].cache.text.get(item.path.as_str()) {
                    Some(text) => {
                        proof {
                            lemma_found(all, wanted, i as int);
                        }
                        return Some(TextTarget { index: i, with_caret: text.caret_enabled });
                    },
                    None => {},
                }
            }
        }
        proof {
            lemma_not_found(all, wanted);
        }
        None
    }

    /// Reflects a text that was read again, without walking anything.
    pub fn apply_text(&mut self, index: usize, path: &str, state: &TextState) -> (events: Vec<
        SourceEvent,
    >)
        requires
            old(self).wf(),
            index < old(self)@.windows.len(),
        ensures
            final(self).wf(),
            final(self)@ == (MirrorView {
                windows: old(self)@.windows.update(
                    index as int,
                    with_text_state(old(self)@.windows[index as int], path@, *state),
                ),
                ..old(self)@
            }),
            event_views(events@) == text_events(old(self)@.windows[index as int], path@, *state),
    {
        let ghost before = self@;
        let mut events: Vec<SourceEvent> = Vec::new();
        assert(event_views(events@) =~= Seq::<SourceEventView>::empty());
        let id: WindowId = self.windows[index].id;
        let focus: NodeId = self.windows[index].focus;
        let window = &mut self.windows[index];
        let changed: Vec<(NodeId, Node)> = rebuild_text_node(
            &mut window.cache,
            path,
            state,
            &mut window.ids,
        );
        assert(self@.windows =~= before.windows.update(
            index as int,
            with_text_state(before.windows[index as int], path@, *state),
        ));
        assert(node_views(changed@).len() == changed@.len());
        if changed.len() > 0 {
            let update = TreeUpdate { nodes: changed, tree: None, focus };
            let event = SourceEvent::TreeUpdate { window: id, update };
            proof {
                lemma_event_push(events@, event);
            }
            events.push(event);
        }
        assert(event_views(events@) =~= text_events(
            before.windows[index as int],
            path@,
            *state,
        ));
        events
    }
}

// ---------------------------------------------------------------- actions

/// An action to perform. `data` is what a selection request carries.
#[derive(Debug, Clone, PartialEq, Eq)]
pub struct PerformMsg {
    pub window: WindowId,
    pub action: Action,
    pub node: NodeId,
    pub data: Option<TextSelection>,
}

/// An object to act on, and for a selection request the text offsets of its ends.
#[derive(Debug, Clone, Copy, PartialEq, Eq)]
pub struct ActionTarget {
    pub token: u64,
    pub selection: Option<(usize, usize)>,
}

/// The offset of a position in a text, if it can be counted.
pub open spec fn counted(offset: Option<nat>) -> Option<usize> {
    match offset {
        Some(n) if n <= usize::MAX => Some(n as usize),
        _ => None,
    }
}

/// What an action is performed on. The ends of a selection are resolved against
/// the layout of the target's text: run ids live there, never among the objects,
/// so only the container of a text can be a target.
pub open spec fn action_target_of(windows: Seq<WindowView>, msg: PerformMsg) -> Option<
    ActionTarget,
> {
    match find_first(windows, with_id(msg.window)) {
        Some(i) => {
            let window = windows[i];
            if !window.objects.contains_key(msg.node.0) {
                None
            } else {
                let (path, token) = window.objects[msg.node.0];
                if msg.action != Action::SetTextSelection {
                    Some(ActionTarget { token, selection: None })
                } else {
                    match msg.data {
                        Some(selection) if window.cache.text.contains_key(path) => {
                            let layout = window.cache.text[path].layout;
                            match (
                                counted(offset_of(layout, selection.anchor)),
                                counted(offset_of(layout, selection.focus)),
                            ) {
                                (Some(anchor), Some(focus)) => Some(
                                    ActionTarget { token, selection: Some((anchor, focus)) },
                                ),
                                _ => None,
                            }
                        },
                        _ => None,
                    }
                }
            }
        },
        None => None,
    }
}

impl Mirror {
    /// What an action is to be performed on; `None` if there is nothing to
    /// perform it on. Once it is performed, the window is to be walked again.
    pub fn action_target(&self, msg: &PerformMsg) -> (target: Option<ActionTarget>)
        ensures
            target == action_target_of(self@.windows, *msg),
    {
        broadcast use vstd::std_specs::hash::group_hash_axioms;

        let i: usize = match find_window(self.windows.as_slice(), msg.window) {
            Some(i) => i,
            None => {
                return None;
            },
        };
        assert(self@.windows[i as int] == self.windows@[i as int]@);
        let window: &WindowState = &self.windows[i];
        let object: &WalkedObject = match window.objects.get(&msg.node.0) {
            Some(object) => object,
            None => {
                return None;
            },
        };
        if msg.action != Action::SetTextSelection {
            return Some(ActionTarget { token: object.token, selection: None });
        }
        match &msg.data {
            Some(selection) => match window.cache.text.get(object.path.as_str()) {
                Some(text) => {
                    let layout = text.layout.as_slice();
                    match (
                        checked_text_offset(layout, &selection.anchor),
                        checked_text_offset(layout, &selection.focus),
                    ) {
                        (Some(anchor), Some(focus)) => Some(
                            ActionTarget { token: object.token, selection: Some((anchor, focus)) },
                        ),
                        _ => None,
                    }
                },
                None => None,
            },
            None => None,
        }
    }
}

// ---------------------------------------------------------------- what the mirror keeps

proof fn lemma_windows_without(windows: Seq<WindowView>, gone: Seq<WindowId>)
    ensures
        windows_without(windows, gone) == windows.filter(|w: WindowView| !gone.contains(w.id)),
    decreases windows.len(),
{
    reveal(Seq::filter);
    if windows.len() > 0 {
        lemma_windows_without(windows.drop_last(), gone);
    }
}

/// Retiring takes away the windows that are gone and no other: every window that is
/// not gone stays, as it is, once and in its order. Focus stays on a window that
/// stays.
pub proof fn law_every_other_window_stays(mirror: MirrorView, gone: Seq<WindowId>, i: int)
    ensures
        retired(mirror, gone).windows == mirror.windows.filter(
            |w: WindowView| !gone.contains(w.id),
        ),
        0 <= i < mirror.windows.len() && !gone.contains(mirror.windows[i].id) ==> retired(
            mirror,
            gone,
        ).windows.contains(mirror.windows[i]),
        retired(mirror, gone).next_id == mirror.next_id,
        mirror.focus matches Some(id) ==> (gone.contains(id) || retired(mirror, gone).focus
            == mirror.focus),
        mirror.focus is None ==> retired(mirror, gone).focus is None,
{
    lemma_windows_without(mirror.windows, gone);
    if 0 <= i < mirror.windows.len() && !gone.contains(mirror.windows[i].id) {
        mirror.windows.lemma_filter_contains_rev(
            |w: WindowView| !gone.contains(w.id),
            mirror.windows[i],
        );
    }
}

pub proof fn lemma_ids_where(windows: Seq<WindowView>, keep: spec_fn(WindowView) -> bool)
    ensures
        ids_where(windows, keep) == windows.filter(keep).map_values(|w: WindowView| w.id),
    decreases windows.len(),
{
    reveal(Seq::filter);
    if windows.len() > 0 {
        lemma_ids_where(windows.drop_last(), keep);
        let before = windows.drop_last().filter(keep);
        if keep(windows.last()) {
            assert(before.push(windows.last()).map_values(|w: WindowView| w.id)
                =~= before.map_values(|w: WindowView| w.id).push(windows.last().id));
        }
    }
}

/// The windows of an application are those whose root is one of its objects, in
/// their order.
pub proof fn law_windows_belong_to_their_application(
    windows: Seq<WindowView>,
    sender: Seq<char>,
)
    ensures
        ids_where(windows, owned_by(sender)) == windows.filter(
            |w: WindowView| w.root.0 == Some(sender),
        ).map_values(|w: WindowView| w.id),
{
    lemma_ids_where(windows, owned_by(sender));
    assert(owned_by(sender) =~= (|w: WindowView| w.root.0 == Some(sender)));
}

/// The windows that were not discovered again are reported as gone, in their order,
/// and no other: a window is known again by its path and the name of its
/// application, where no name counts as the empty one.
pub proof fn law_windows_not_found_again_are_gone(
    windows: Seq<WindowView>,
    discovered: Seq<(Option<Seq<char>>, Seq<char>)>,
    i: int,
)
    requires
        windows.len() <= usize::MAX,
    ensures
        vanished(windows, discovered) == windows.filter(
            |w: WindowView|
                !exists|k: int|
                    0 <= k < discovered.len() && (#[trigger] discovered[k]).1 == w.root.1 && (
                    match discovered[k].0 {
                        Some(name) => name,
                        None => Seq::empty(),
                    }) == (match w.root.0 {
                        Some(name) => name,
                        None => Seq::empty(),
                    }),
        ).map_values(|w: WindowView| w.id),
        removals(vanished(windows, discovered)).len() == vanished(windows, discovered).len(),
        0 <= i < vanished(windows, discovered).len() ==> removals(vanished(windows, discovered))[i]
            == SourceEventView::WindowRemoved(vanished(windows, discovered)[i]),
    decreases windows.len(),
{
    reveal(Seq::filter);
    let lost = |w: WindowView|
        !exists|k: int|
            0 <= k < discovered.len() && (#[trigger] discovered[k]).1 == w.root.1 && (
            match discovered[k].0 {
                Some(name) => name,
                None => Seq::empty(),
            }) == (match w.root.0 {
                Some(name) => name,
                None => Seq::empty(),
            });
    let others = root_keys(discovered);
    let all = missing(root_keys(roots_of(windows)), others);
    if windows.len() > 0 {
        let (init, last) = (windows.drop_last(), windows.last());
        law_windows_not_found_again_are_gone(init, discovered, 0);
        let keys = root_keys(roots_of(windows));
        assert(keys.drop_last() =~= root_keys(roots_of(init)));
        let before = missing(keys.drop_last(), others);
        lemma_missing_below(keys.drop_last(), others);
        if others.contains(keys.last()) {
            let k = others.index_of(keys.last());
            assert(discovered[k].1 == last.root.1);
            assert(!lost(last));
            assert(all =~= before);
        } else {
            if !lost(last) {
                let k = choose|k: int|
                    0 <= k < discovered.len() && (#[trigger] discovered[k]).1 == last.root.1 && (
                    match discovered[k].0 {
                        Some(name) => name,
                        None => Seq::empty(),
                    }) == (match last.root.0 {
                        Some(name) => name,
                        None => Seq::empty(),
                    });
                assert(others[k] == keys.last());
            }
            assert(all =~= before.push((windows.len() - 1) as usize));
        }
        assert(ids_at_indices(windows, before) =~= ids_at_indices(init, before));
        assert(vanished(windows, discovered) =~= if lost(last) {
            vanished(init, discovered).push(last.id)
        } else {
            vanished(init, discovered)
        });
        let kept = init.filter(lost);
        if lost(last) {
            assert(kept.push(last).map_values(|w: WindowView| w.id) =~= kept.map_values(
                |w: WindowView| w.id,
            ).push(last.id));
        }
    } else {
        assert(vanished(windows, discovered) =~= Seq::empty());
        assert(windows.filter(lost).map_values(|w: WindowView| w.id) =~= Seq::empty());
    }
}

/// When focus moves to a node, it is the first window of that id that has the node
/// focused, and that window has focus. Nothing else about any window changes.
pub proof fn law_focus_moves_in_one_window(
    mirror: MirrorView,
    window: WindowId,
    node: NodeId,
    i: int,
)
    ensures
        ({
            let after = focus_moved(mirror, window, node);
            &&& after.focus == Some(window)
            &&& after.next_id == mirror.next_id
            &&& after.windows.len() == mirror.windows.len()
            &&& 0 <= i < mirror.windows.len() ==> {
                let first = mirror.windows[i].id == window && forall|j: int|
                    0 <= j < i ==> (#[trigger] mirror.windows[j]).id != window;
                &&& first ==> after.windows[i] == (WindowView {
                    focus: node,
                    ..mirror.windows[i]
                })
                &&& !first ==> after.windows[i] == mirror.windows[i]
            }
        }),
{
    let fits = with_id(window);
    if 0 <= i < mirror.windows.len() {
        if mirror.windows[i].id == window && forall|j: int|
            0 <= j < i ==> (#[trigger] mirror.windows[j]).id != window {
            assert(first_match(mirror.windows, fits, i));
            lemma_found(mirror.windows, fits, i);
        } else if find_first(mirror.windows, fits) == Some(i) {
            assert(first_match(mirror.windows, fits, i));
            assert(forall|j: int| 0 <= j < i ==> (#[trigger] mirror.windows[j]).id != window);
        }
    }
}

/// A move of focus is reported as an update that touches no node and names the
/// focused one; the window's own focus is reported where it is news, and then last.
pub proof fn law_a_focus_move_is_reported(mirror: MirrorView, window: WindowId, node: NodeId)
    ensures
        ({
            let events = focus_events(mirror, window, node);
            &&& events.len() == if mirror.focus == Some(window) {
                1nat
            } else {
                2nat
            }
            &&& events[0] matches SourceEventView::TreeUpdate { window: at, update } && at
                == window && update.focus == node && update.nodes.len() == 0 && update.tree is None
            &&& events.last() == SourceEventView::FocusChanged(Some(window)) <==> mirror.focus
                != Some(window)
        }),
{
}

/// Focus is found in the first window of the sender whose current tree shows the
/// object, at the node that shows it.
pub proof fn law_a_focused_object_is_shown(
    windows: &[WindowState],
    sender: &str,
    path: &str,
    target: Option<(WindowId, NodeId)>,
    i: int,
)
    requires
        call_ensures(resolve_focus_target, (windows, sender, path), target),
    ensures
        0 <= i < windows@.len() && target is None ==> {
            let w = windows@[i]@;
            !(w.root.0 == Some(sender@) && w.ids.contains_key(path@) && w.objects.contains_key(
                w.ids[path@].0,
            ))
        },
        target matches Some((window, node)) ==> exists|k: int|
            {
                let w = #[trigger] windows@[k]@;
                &&& 0 <= k < windows@.len()
                &&& w.id == window
                &&& w.root.0 == Some(sender@)
                &&& w.ids.contains_key(path@)
                &&& w.ids[path@] == node
                &&& w.objects.contains_key(node.0)
                &&& 0 <= i < k ==> {
                    let before = windows@[i]@;
                    !(before.root.0 == Some(sender@) && before.ids.contains_key(path@)
                        && before.objects.contains_key(before.ids[path@].0))
                }
            },
{
    let views = window_views(windows@);
    let fits = showing(sender@, path@);
    match target {
        Some(_) => {
            let k = find_first(views, fits)->0;
            assert(first_match(views, fits, k));
            assert(views[k] == windows@[k]@);
            if 0 <= i < k {
                assert(!fits(views[i]));
            }
        },
        None => {
            if 0 <= i < windows@.len() && fits(views[i]) {
                lemma_some_first(views, fits, i);
            }
        },
    }
}

/// The objects of a walk are known by the ids of their nodes: each node that has an
/// id, unless a later one has the same, with the token it was walked with. There are
/// no others.
pub proof fn law_objects_are_known_by_their_ids(
    nodes: Seq<MirrorNode>,
    tokens: Seq<u64>,
    ids: Map<Seq<char>, NodeId>,
    k: int,
    id: u64,
)
    requires
        nodes.len() == tokens.len(),
    ensures
        ({
            let objects = objects_of(nodes, tokens, ids);
            &&& 0 <= k < nodes.len() && ids.contains_key(nodes[k].path@) ==> {
                &&& objects.contains_key(ids[nodes[k].path@].0)
                &&& (forall|j: int|
                    k < j < nodes.len() && ids.contains_key((#[trigger] nodes[j]).path@)
                        ==> ids[nodes[j].path@] != ids[nodes[k].path@])
                    ==> objects[ids[nodes[k].path@].0] == (nodes[k].path@, tokens[k])
            }
            &&& objects.contains_key(id) ==> exists|j: int|
                0 <= j < nodes.len() && ids.contains_key((#[trigger] nodes[j]).path@)
                    && ids[nodes[j].path@].0 == id && objects[id] == (nodes[j].path@, tokens[j])
        }),
    decreases nodes.len(),
{
    if nodes.len() > 0 {
        let (init, first) = (nodes.drop_last(), tokens.drop_last());
        let n = nodes.len() - 1;
        law_objects_are_known_by_their_ids(init, first, ids, k, id);
        let before = objects_of(init, first, ids);
        if 0 <= k < n {
            assert(init[k] == nodes[k]);
            if forall|j: int|
                k < j < nodes.len() && ids.contains_key((#[trigger] nodes[j]).path@)
                    ==> ids[nodes[j].path@] != ids[nodes[k].path@] {
                assert forall|j: int|
                    k < j < init.len() && ids.contains_key((#[trigger] init[j]).path@) implies
                    ids[init[j].path@] != ids[init[k].path@] by {
                    assert(init[j] == nodes[j]);
                }
                assert(nodes[n] == nodes.last());
            }
        }
        if objects_of(nodes, tokens, ids).contains_key(id) {
            if ids.contains_key(nodes[n].path@) && ids[nodes[n].path@].0 == id {
                assert(nodes[n] == nodes.last());
            } else {
                let j = choose|j: int|
                    0 <= j < init.len() && ids.contains_key((#[trigger] init[j]).path@)
                        && ids[init[j].path@].0 == id && before[id] == (init[j].path@, first[j]);
                assert(nodes[j] == init[j]);
            }
        }
    }
}

/// A window that was walked keeps its id, its root and the ids it has given. It knows
/// every walked object by the id of its node, with its token, and remembers what it
/// emitted for it; its focus is the one it emitted.
pub proof fn law_a_walked_window_knows_its_objects(
    window: WindowView,
    nodes: Seq<MirrorNode>,
    tokens: Seq<u64>,
    k: int,
)
    requires
        nodes.len() == tokens.len(),
        0 <= k < nodes.len(),
        distinct_paths(nodes),
        id_table(window.ids),
        window.ids.dom().len() + nodes.len() + all_runs(nodes).len() < u64::MAX,
    ensures
        ({
            let after = rebuilt_window(window, nodes, tokens);
            let path = nodes[k].path@;
            &&& after.id == window.id
            &&& after.root == window.root
            &&& extends(after.ids, window.ids)
            &&& after.ids.contains_key(path)
            &&& after.objects.contains_key(after.ids[path].0)
            &&& after.objects[after.ids[path].0] == (path, tokens[k])
            &&& after.cache.nodes.dom() == paths_of(nodes).to_set()
            &&& window_emission(nodes, window.ids).out.contains(
                (after.ids[path], after.cache.nodes[path]),
            )
            &&& after.focus == window_update(nodes, window.ids).focus
        }),
{
    let after = rebuilt_window(window, nodes, tokens);
    let all = paths_of(nodes) + all_runs(nodes);
    law_only_walked_paths_and_runs_get_ids(nodes, window.ids);
    lemma_with_paths_table(window.ids, all);
    law_cache_holds_exactly_the_emitted_containers(nodes, window.ids);
    assert(paths_of(nodes)[k] == nodes[k].path@);
    assert(all[k] == nodes[k].path@);
    assert(all.to_set().contains(nodes[k].path@));
    assert forall|j: int|
        k < j < nodes.len() && after.ids.contains_key((#[trigger] nodes[j]).path@) implies
        after.ids[nodes[j].path@] != after.ids[nodes[k].path@] by {
        assert(nodes[j].path@ != nodes[k].path@);
    }
    law_objects_are_known_by_their_ids(nodes, tokens, after.ids, k, 0);
}

/// An enumeration announces every toplevel that has nodes, in its order: each under
/// the next free id, with what its walk emitted, and it is mirrored under that id
/// behind the windows there were. The last one marked as active is the active one.
pub proof fn law_every_walked_toplevel_is_announced(
    mirror: MirrorView,
    walked: Seq<WalkedWindow>,
    j: int,
)
    requires
        mirror.next_id + walked.len() <= u64::MAX,
    ensures
        ({
            let after = enumeration(mirror, walked);
            let shown = walked.filter(|w: WalkedWindow| w.nodes@.len() > 0);
            let id = WindowId((mirror.next_id + j) as u64);
            &&& after.out.len() == shown.len() <= walked.len()
            &&& after.mirror.windows.len() == mirror.windows.len() + shown.len()
            &&& after.mirror.windows.take(mirror.windows.len() as int) == mirror.windows
            &&& after.mirror.next_id == mirror.next_id + shown.len()
            &&& after.mirror.focus == mirror.focus
            &&& 0 <= j < shown.len() ==> {
                let window = after.mirror.windows[mirror.windows.len() + j];
                &&& after.out[j].0 == (WindowDescriptor { id, ..shown[j].descriptor })
                &&& after.out[j].1 == window_update(shown[j].nodes@, Map::empty())
                &&& window.id == id
                &&& window.root == shown[j].root@
                &&& window == rebuilt_window(
                    WindowView {
                        id,
                        root: shown[j].root@,
                        ids: Map::empty(),
                        objects: Map::empty(),
                        focus: NodeId(0),
                        cache: crate::atspi::mapping::empty_cache(),
                    },
                    shown[j].nodes@,
                    shown[j].tokens@,
                )
                &&& shown[j].active && (forall|i: int|
                    j < i < shown.len() ==> !(#[trigger] shown[i]).active) ==> after.active
                    == Some(id)
            }
            &&& after.active is None <==> forall|i: int|
                0 <= i < shown.len() ==> !(#[trigger] shown[i]).active
        }),
    decreases walked.len(),
{
    reveal(Seq::filter);
    let keep = |w: WalkedWindow| w.nodes@.len() > 0;
    let shown = walked.filter(keep);
    let after = enumeration(mirror, walked);
    if walked.len() > 0 {
        let init = walked.drop_last();
        let first = init.filter(keep);
        let before = enumeration(mirror, init);
        law_every_walked_toplevel_is_announced(mirror, init, j);
        let last = walked.last();
        if keep(last) {
            assert(shown == first.push(last));
            assert forall|i: int| 0 <= i < first.len() implies #[trigger] shown[i] == first[i] by {}
            assert(shown[first.len() as int] == last);
            assert(after.mirror.windows.take(mirror.windows.len() as int)
                =~= before.mirror.windows.take(mirror.windows.len() as int));
            if forall|i: int| 0 <= i < shown.len() ==> !(#[trigger] shown[i]).active {
                assert forall|i: int| 0 <= i < first.len() implies !(#[trigger] first[i]).active by {
                    assert(shown[i] == first[i]);
                }
            } else {
                let i = choose|i: int| 0 <= i < shown.len() && (#[trigger] shown[i]).active;
                if i < first.len() {
                    assert(first[i].active);
                }
            }
            if 0 <= j < first.len() {
                if forall|i: int| j < i < shown.len() ==> !(#[trigger] shown[i]).active {
                    assert forall|i: int| j < i < first.len() implies !(
                    #[trigger] first[i]).active by {
                        assert(shown[i] == first[i]);
                    }
                }
            }
        }
    } else {
        assert(shown =~= Seq::empty());
        assert(after.mirror.windows.take(mirror.windows.len() as int) =~= mirror.windows);
    }
}

/// After an enumeration the active window has focus. Without one it is the first of
/// all windows, and nothing has focus only where there is no window.
pub proof fn law_an_enumeration_gives_focus(enumerated: Enumeration)
    ensures
        enumerated.active is Some ==> initial_focus(enumerated) == enumerated.active,
        enumerated.active is None && enumerated.mirror.windows.len() > 0 ==> initial_focus(
            enumerated,
        ) == Some(enumerated.mirror.windows[0].id),
        initial_focus(enumerated) is None <==> enumerated.active is None
            && enumerated.mirror.windows.len() == 0,
{
}

/// What is reported of a text that was read again brings the consumer every run of it:
/// each run that was not there before, the same and in the same place, is in the one
/// update reported. The update leaves focus where it is. Nothing is reported of a text
/// only if every run was there.
pub proof fn law_a_text_event_brings_the_text(
    window: WindowView,
    path: Seq<char>,
    state: TextState,
    i: int,
)
    requires
        window.cache.text.contains_key(path),
        window.cache.nodes.contains_key(path),
    ensures
        ({
            let after = with_text_state(window, path, state);
            let events = text_events(window, path, state);
            let (were, are) = (window.cache.text[path].runs, after.cache.text[path].runs);
            &&& values_of(are) == lines(state.text@)
            &&& (after == WindowView { ids: after.ids, cache: after.cache, ..window })
            &&& extends(after.ids, window.ids)
            &&& events.len() <= 1
            &&& 0 <= i < are.len() && !(i < were.len() && were[i] == are[i]) ==> {
                &&& events.len() == 1
                &&& events[0] matches SourceEventView::TreeUpdate { window: at, update }
                    && update.nodes.contains(are[i])
            }
            &&& events.len() == 1 ==> {
                &&& events[0] matches SourceEventView::TreeUpdate { window: at, update } && at
                    == window.id && update.focus == window.focus && update.tree is None
                    && update.nodes.len() > 0
            }
        }),
{
    law_a_rebuilt_text_reaches_the_consumer(window.cache, path, state, window.ids, i);
    law_a_rebuilt_text_sends_nothing_else(
        window.cache,
        path,
        state,
        window.ids,
        0,
        path.push('/'),
    );
}

/// An action goes to the object that the node shows in the window it names. A
/// selection goes to a text whose runs hold both of its ends, by their offsets in it;
/// any other action has no selection. Nothing else is a target.
pub proof fn law_an_action_goes_to_its_object(windows: Seq<WindowView>, msg: PerformMsg, i: int)
    requires
        0 <= i < windows.len(),
        windows[i].id == msg.window,
        forall|j: int| 0 <= j < i ==> (#[trigger] windows[j]).id != msg.window,
    ensures
        ({
            let found = action_target_of(windows, msg);
            let objects = windows[i].objects;
            &&& found is Some ==> objects.contains_key(msg.node.0) && found->0.token
                == objects[msg.node.0].1
            &&& msg.action != Action::SetTextSelection ==> {
                &&& found is Some <==> objects.contains_key(msg.node.0)
                &&& found is Some ==> found->0.selection is None
            }
            &&& msg.action == Action::SetTextSelection && objects.contains_key(msg.node.0) ==> {
                let path = objects[msg.node.0].0;
                let layout = windows[i].cache.text[path].layout;
                let at = |p: TextPosition, n: usize| offset_of(layout, p) == Some(n as nat);
                &&& found matches Some(target) ==> {
                    &&& windows[i].cache.text.contains_key(path)
                    &&& msg.data matches Some(asked) && target.selection matches Some(ends) && at(
                        asked.anchor,
                        ends.0,
                    ) && at(asked.focus, ends.1)
                }
                &&& found is None ==> {
                    ||| !windows[i].cache.text.contains_key(path)
                    ||| msg.data is None
                    ||| (offset_of(layout, msg.data->0.anchor) matches Some(n) ==> n > usize::MAX)
                    ||| (offset_of(layout, msg.data->0.focus) matches Some(n) ==> n > usize::MAX)
                }
            }
        }),
{
    let fits = with_id(msg.window);
    assert(first_match(windows, fits, i));
    lemma_found(windows, fits, i);
}

/// An action on a window that is not mirrored has no target.
pub proof fn law_an_unknown_window_has_no_target(windows: Seq<WindowView>, msg: PerformMsg)
    requires
        forall|j: int| 0 <= j < windows.len() ==> (#[trigger] windows[j]).id != msg.window,
    ensures
        action_target_of(windows, msg) is None,
{
    lemma_not_found(windows, with_id(msg.window));
}

} // verus!
