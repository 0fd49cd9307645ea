//! The state of a mirror of the desktop: its windows, what each last emitted,
//! which of them has focus, and which are to be walked again.
//!
//! Reading elements and waiting for notifications is the caller's; what is read
//! comes in as plain values, and each method says what to read or send next.
//! Times are counts of milliseconds from one origin.

use accesskit::Node as ToolkitNode;
use accesskit::TreeId as ToolkitTreeId;
use crate::atspi::coalesce::noted;
use crate::atspi::coalesce::Pending;
use crate::atspi::coalesce::RewalkCoalescer;
use crate::atspi::focus::FocusTracker;
use crate::ax::delta::after_refresh;
use crate::ax::delta::after_walk;
use crate::ax::delta::differs;
use crate::ax::delta::encoding;
use crate::ax::delta::encodings;
use crate::ax::delta::sent;
use crate::ax::delta::wire_view;
use crate::ax::delta::EmittedTree;
use crate::ax::delta::EmittedView;
use crate::ax::delta::WireUpdate;
use crate::ax::delta::WireView;
use crate::ax::element::id_of;
use crate::ax::element::ElementKey;
use crate::ax::element::NodeIdMap;
use crate::ax::element::Owner;
use crate::ax::node::build_container;
use crate::ax::node::container_of;
use crate::ax::node::AxNode;
use crate::ax::observe::route;
use crate::ax::observe::routed;
use crate::ax::observe::Route;
use crate::ax::shape::shapes_of;
use crate::ax::shape::ShapeMap;
use crate::ax::shape::ShapeView;
use crate::ax::walk::build_window_update;
use crate::ax::walk::range_fits;
use crate::ax::walk::window_emission;
use crate::ax::walk::window_update;
use crate::ax::walk::with_children;
use crate::messages::WindowId;
use crate::search::find_first;
use crate::search::first_match;
use crate::search::law_the_first_is_found;
use crate::search::lemma_found;
use crate::search::lemma_not_found;
use crate::tree::Node;
use crate::tree::NodeId;
use crate::tree::NodeView;
use crate::tree::Properties;
use crate::tree::TextSelection;
use crate::tree::TreeUpdate;
use vstd::prelude::*;

verus! {

/// How long the run loop is given before commands are looked at again.
pub const RUN_LOOP_SLICE: u64 = 50;

/// How long a window is quiet before it is walked again after a burst of changes.
pub const REWALK_QUIET: u64 = 250;

/// The longest that a window which keeps changing waits for its walk.
pub const REWALK_MAX_DELAY: u64 = 2000;

/// How often the windows are discovered again, and the focused one walked.
/// Scrolling gives no notification, so nothing else corrects its geometry.
pub const RECONCILE_INTERVAL: u64 = 3000;

/// How long a window is walked again after an action was performed on it: an
/// application accepts a write before it acts on it, and some controls report
/// nothing when driven.
pub const SETTLE_AFTER_ACTION: u64 = 3500;

// ---------------------------------------------------------------- windows

/// One window that is mirrored.
pub struct WindowState {
    pub id: WindowId,
    /// The window's own element.
    pub key: ElementKey,
    /// Kept across walks, so that an element which survives one keeps its node id.
    pub ids: NodeIdMap,
    /// What the consumer holds already.
    pub emitted: EmittedTree,
    /// The shape each node was emitted with. A refresh goes by these: it may change
    /// a node's semantics, never the tree's shape.
    pub shapes: ShapeMap,
    /// Until when the window is walked again because of an action on it.
    pub settle_until: Option<u128>,
}

/// The content of a [`WindowState`].
#[verifier::ext_equal]
pub struct WindowView {
    pub id: WindowId,
    pub key: ElementKey,
    pub owners: Seq<Owner>,
    pub emitted: EmittedView,
    pub shapes: Map<NodeId, ShapeView>,
    pub settle_until: Option<u128>,
}

impl View for WindowState {
    type V = WindowView;

    open spec fn view(&self) -> WindowView {
        WindowView {
            id: self.id,
            key: self.key,
            owners: self.ids@,
            emitted: self.emitted@,
            shapes: self.shapes@,
            settle_until: self.settle_until,
        }
    }
}

/// The contents of a list of windows.
pub open spec fn window_views(windows: Seq<WindowState>) -> Seq<WindowView> {
    windows.map_values(|w: WindowState| w@)
}

/// Whether a window has an id.
pub open spec fn with_id(id: WindowId) -> spec_fn(WindowView) -> bool {
    |w: WindowView| w.id == id
}

/// Whether a window is an element's.
pub open spec fn with_key(key: ElementKey) -> spec_fn(WindowView) -> bool {
    |w: WindowView| w.key == key
}

/// Whether a window is owned by a process.
pub open spec fn owned_by(pid: i32) -> spec_fn(WindowView) -> bool {
    |w: WindowView| w.key.owner() == pid
}

/// Whether a window's tree has a node for an element, as the consumer holds it. An
/// id can outlive its node.
pub open spec fn holding(key: ElementKey) -> spec_fn(WindowView) -> bool {
    |w: WindowView|
        w.owners.contains(Owner::Element(key)) && w.emitted.nodes.contains_key(
            id_of(w.owners, Owner::Element(key)),
        )
}

// ---------------------------------------------------------------- the desktop

/// Everything that is mirrored.
pub struct Desktop {
    pub windows: Vec<WindowState>,
    /// The id that the next window gets.
    pub next_id: u64,
    pub focus: FocusTracker,
    /// The walks that are due.
    pub pending: RewalkCoalescer,
    /// The processes whose notifications are listened to.
    pub observed: Vec<i32>,
}

/// The content of a [`Desktop`].
#[verifier::ext_equal]
pub struct DesktopView {
    pub windows: Seq<WindowView>,
    pub next_id: u64,
    pub focus: Option<WindowId>,
    pub pending: Map<WindowId, Pending>,
    pub observed: Seq<i32>,
}

impl View for Desktop {
    type V = DesktopView;

    open spec fn view(&self) -> DesktopView {
        DesktopView {
            windows: window_views(self.windows@),
            next_id: self.next_id,
            focus: self.focus@,
            pending: self.pending@,
            observed: self.observed@,
        }
    }
}

/// Whether a window with an id is mirrored.
pub open spec fn has_window(windows: Seq<WindowView>, id: WindowId) -> bool {
    exists|i: int| 0 <= i < windows.len() && (#[trigger] windows[i]).id == id
}

/// Each window has an id of its own, below the next to be given; focus, and every
/// walk that is due, is of a window that is mirrored.
pub open spec fn sound(desktop: DesktopView) -> bool {
    &&& forall|i: int, j: int|
        0 <= i < j < desktop.windows.len() ==> (#[trigger] desktop.windows[i]).id != (
        #[trigger] desktop.windows[j]).id
    &&& forall|i: int|
        0 <= i < desktop.windows.len() ==> (#[trigger] desktop.windows[i]).id.0 < desktop.next_id
    &&& desktop.focus matches Some(id) ==> has_window(desktop.windows, id)
    &&& forall|id: WindowId| #[trigger]
        desktop.pending.contains_key(id) ==> has_window(desktop.windows, id)
}

/// What is due after a window was invalidated.
pub open spec fn noted_at(pending: Map<WindowId, Pending>, window: WindowId, now: u64) -> Map<
    WindowId,
    Pending,
> {
    noted(pending, REWALK_QUIET, REWALK_MAX_DELAY, window, now)
}

/// What is due after all windows of a process were invalidated.
pub open spec fn noted_windows(
    pending: Map<WindowId, Pending>,
    windows: Seq<WindowView>,
    pid: i32,
    now: u64,
) -> Map<WindowId, Pending>
    decreases windows.len(),
{
    if windows.len() == 0 {
        pending
    } else {
        let before = noted_windows(pending, windows.drop_last(), pid, now);
        if windows.last().key.owner() == pid {
            noted_at(before, windows.last().id, now)
        } else {
            before
        }
    }
}

/// What is to be done about a notification.
#[derive(Debug, Clone, Copy, PartialEq, Eq, Structural)]
pub enum Routed {
    /// Nothing further.
    Done,
    /// One node is to be read again, of the window at this index, unless it was
    /// read a moment ago.
    Refresh(usize),
    /// Focus moved to another window, which is to be reported.
    FocusChanged(Option<WindowId>),
}

/// The window that focus moved to with an element: the one that has a node for it,
/// or else the first of its process.
pub open spec fn focused_window(windows: Seq<WindowView>, key: ElementKey) -> Option<int> {
    match find_first(windows, holding(key)) {
        Some(i) => Some(i),
        None => find_first(windows, owned_by(key.owner())),
    }
}

/// A desktop with every window of a process to be walked again.
pub open spec fn invalidated(desktop: DesktopView, pid: i32, now: u64) -> DesktopView {
    DesktopView {
        pending: noted_windows(desktop.pending, desktop.windows, pid, now),
        ..desktop
    }
}

/// A desktop after a notification about an element.
pub open spec fn after_notification(
    desktop: DesktopView,
    notification: Seq<char>,
    key: ElementKey,
    now: u64,
) -> DesktopView {
    match routed(notification) {
        Route::Ignore => desktop,
        Route::Refresh => match find_first(desktop.windows, holding(key)) {
            Some(_) => desktop,
            None => invalidated(desktop, key.owner(), now),
        },
        Route::Focus => match focused_window(desktop.windows, key) {
            Some(i) => DesktopView {
                pending: noted_at(desktop.pending, desktop.windows[i].id, now),
                focus: Some(desktop.windows[i].id),
                ..desktop
            },
            None => desktop,
        },
        _ => invalidated(desktop, key.owner(), now),
    }
}

/// What is to be done about a notification about an element. One node can be read
/// again where the consumer has it; an element it does not have may be new, which
/// only a walk can find. Focus is reported when it moved to another window.
/// Everything else changes the shape of a window, and since the element may be
/// gone, it is every window of its process that is to be walked.
pub open spec fn route_of(
    desktop: DesktopView,
    notification: Seq<char>,
    key: ElementKey,
) -> Routed {
    match routed(notification) {
        Route::Refresh => match find_first(desktop.windows, holding(key)) {
            Some(i) => Routed::Refresh(i as usize),
            None => Routed::Done,
        },
        Route::Focus => match focused_window(desktop.windows, key) {
            Some(i) if desktop.focus != Some(desktop.windows[i].id) => Routed::FocusChanged(
                Some(desktop.windows[i].id),
            ),
            _ => Routed::Done,
        },
        _ => Routed::Done,
    }
}

// ---------------------------------------------------------------- updates

/// Those of the nodes that the consumer holds. An id can outlive its node, and
/// naming a node that the consumer does not hold is fatal to it.
pub open spec fn held_ids(emitted: EmittedView, ids: Seq<NodeId>) -> Seq<NodeId>
    decreases ids.len(),
{
    if ids.len() == 0 {
        Seq::empty()
    } else {
        let before = held_ids(emitted, ids.drop_last());
        if emitted.nodes.contains_key(ids.last()) {
            before.push(ids.last())
        } else {
            before
        }
    }
}

/// The shape that a refresh gives a node: the one it was emitted with.
pub open spec fn kept_shape(window: WindowView, id: NodeId) -> ShapeView {
    if window.shapes.contains_key(id) {
        ShapeView {
            children: held_ids(window.emitted, window.shapes[id].children),
            selection: window.shapes[id].selection,
        }
    } else {
        ShapeView { children: Seq::empty(), selection: None }
    }
}

/// A node that was read again: what it says is what was read, and its children, its
/// text runs among them, and its selection are those it was emitted with.
pub open spec fn refreshed_view(window: WindowView, key: ElementKey, read: AxNode) -> NodeView {
    let shape = kept_shape(window, id_of(window.owners, Owner::Element(key)));
    with_children(container_of(read), shape.children, shape.selection)
}

/// The update that carries one node that was read again. Focus is restated as the
/// consumer believes it, for a stale value would move it.
pub open spec fn refresh_update(
    window: WindowView,
    id: NodeId,
    node: ToolkitNode,
    tree_id: ToolkitTreeId,
) -> WireView {
    WireView {
        nodes: seq![(id, node)],
        tree: None,
        tree_id,
        focus: match window.emitted.focus {
            Some(focus) => focus,
            None => id,
        },
    }
}

/// A window after it was walked again. A walk that came up empty changes nothing:
/// the consumer still holds what was emitted, and removing the window is for whoever
/// sees all windows.
pub open spec fn rewalked(window: WindowView, nodes: Seq<AxNode>, now: u64) -> WindowView {
    if nodes.len() == 0 {
        window
    } else {
        WindowView {
            shapes: shapes_of(window_update(nodes, window.owners).nodes),
            owners: window_emission(nodes, window.owners).owners,
            settle_until: if settling(window, now) {
                window.settle_until
            } else {
                None
            },
            ..window
        }
    }
}

/// Whether a window is still watched because of an action on it.
pub open spec fn settling(window: WindowView, now: u64) -> bool {
    window.settle_until matches Some(until) && now < until
}

/// A desktop after one of its windows was walked again. It is to be walked once
/// more while it is settling, whether or not anything changed.
pub open spec fn after_rewalk(
    desktop: DesktopView,
    id: WindowId,
    nodes: Seq<AxNode>,
    now: u64,
) -> DesktopView {
    match find_first(desktop.windows, with_id(id)) {
        Some(i) => DesktopView {
            windows: desktop.windows.update(i, rewalked(desktop.windows[i], nodes, now)),
            pending: if nodes.len() > 0 && settling(desktop.windows[i], now) {
                noted_at(desktop.pending, id, now)
            } else {
                desktop.pending
            },
            ..desktop
        },
        None => desktop,
    }
}

/// Where the first window that satisfies a property is.
pub proof fn lemma_window_found(windows: Seq<WindowView>, fits: spec_fn(WindowView) -> bool)
    ensures
        find_first(windows, fits) matches Some(i) ==> 0 <= i < windows.len() && fits(windows[i])
            && has_window(windows, windows[i].id),
{
    if let Some(i) = find_first(windows, fits) {
        assert(crate::search::first_match(windows, fits, i));
        assert(windows[i].id == windows[i].id);
    }
}

impl Desktop {
    /// The parts are consistent.
    pub open spec fn wf(&self) -> bool {
        &&& self.pending.wf()
        &&& self.pending.quiet_time() == REWALK_QUIET
        &&& self.pending.longest_delay() == REWALK_MAX_DELAY
        &&& forall|i: int| 0 <= i < self.windows@.len() ==> (#[trigger] self.windows@[i]).ids.wf()
        &&& sound(self@)
    }

    /// An empty desktop. Ids start at one.
    pub fn new() -> (desktop: Self)
        ensures
            desktop.wf(),
            desktop@ == (DesktopView {
                windows: Seq::empty(),
                next_id: 1,
                focus: None,
                pending: Map::empty(),
                observed: Seq::empty(),
            }),
    {
        let desktop = Desktop {
            windows: Vec::new(),
            next_id: 1,
            focus: FocusTracker::new(None),
            pending: RewalkCoalescer::new(REWALK_QUIET, REWALK_MAX_DELAY),
            observed: Vec::new(),
        };
        assert(desktop@.windows =~= Seq::<WindowView>::empty());
        assert(desktop@.observed =~= Seq::<i32>::empty());
        desktop
    }

    /// Where the first window with an id is.
    pub fn find_window(&self, id: WindowId) -> (found: Option<usize>)
        ensures
            match found {
                Some(i) => i < self.windows@.len() && find_first(self@.windows, with_id(id))
                    == Some(i as int),
                None => find_first(self@.windows, with_id(id)) is None,
            },
    {
        let ghost all = self@.windows;
        for i in 0..self.windows.len()
            invariant
                all == self@.windows,
                forall|j: int| 0 <= j < i ==> !with_id(id)(#[trigger] all[j]),
        {
            assert(all[i as int] == self.windows@[i as int]@);
            if self.windows[i].id == id {
                proof {
                    lemma_found(all, with_id(id), i as int);
                }
                return Some(i);
            }
        }
        proof {
            lemma_not_found(all, with_id(id));
        }
        None
    }

    /// Where the first window of an element is.
    pub fn find_key(&self, key: ElementKey) -> (found: Option<usize>)
        ensures
            match found {
                Some(i) => i < self.windows@.len() && find_first(self@.windows, with_key(key))
                    == Some(i as int),
                None => find_first(self@.windows, with_key(key)) is None,
            },
    {
        let ghost all = self@.windows;
        for i in 0..self.windows.len()
            invariant
                all == self@.windows,
                forall|j: int| 0 <= j < i ==> !with_key(key)(#[trigger] all[j]),
        {
            assert(all[i as int] == self.windows@[i as int]@);
            if self.windows[i].key == key {
                proof {
                    lemma_found(all, with_key(key), i as int);
                }
                return Some(i);
            }
        }
        proof {
            lemma_not_found(all, with_key(key));
        }
        None
    }

    /// Where the first window of a process is.
    fn find_owner(&self, pid: i32) -> (found: Option<usize>)
        ensures
            match found {
                Some(i) => i < self.windows@.len() && find_first(self@.windows, owned_by(pid))
                    == Some(i as int),
                None => find_first(self@.windows, owned_by(pid)) is None,
            },
    {
        let ghost all = self@.windows;
        for i in 0..self.windows.len()
            invariant
                all == self@.windows,
                forall|j: int| 0 <= j < i ==> !owned_by(pid)(#[trigger] all[j]),
        {
            assert(all[i as int] == self.windows@[i as int]@);
            if self.windows[i].key.pid() == pid {
                proof {
                    lemma_found(all, owned_by(pid), i as int);
                }
                return Some(i);
            }
        }
        proof {
            lemma_not_found(all, owned_by(pid));
        }
        None
    }

    /// The window whose tree has a node for an element.
    pub fn window_holding(&self, key: ElementKey) -> (found: Option<usize>)
        requires
            self.wf(),
        ensures
            match found {
                Some(i) => i < self.windows@.len() && find_first(self@.windows, holding(key))
                    == Some(i as int),
                None => find_first(self@.windows, holding(key)) is None,
            },
    {
        let ghost all = self@.windows;
        for i in 0..self.windows.len()
            invariant
                self.wf(),
                all == self@.windows,
                forall|j: int| 0 <= j < i ==> !holding(key)(#[trigger] all[j]),
        {
            assert(all[i as int] == self.windows@[i as int]@);
            assert(self.windows@[i as int].ids.wf());
            let held: bool = match self.windows[i].ids.get(key) {
                Some(id) => self.windows[i].emitted.holds(id),
                None => false,
            };
            if held {
                proof {
                    lemma_found(all, holding(key), i as int);
                }
                return Some(i);
            }
        }
        proof {
            lemma_not_found(all, holding(key));
        }
        None
    }

    /// Marks a window to be walked again.
    pub fn note(&mut self, id: WindowId, now: u64)
        requires
            old(self).wf(),
            has_window(old(self)@.windows, id),
        ensures
            final(self).wf(),
            final(self)@ == (DesktopView {
                pending: noted_at(old(self)@.pending, id, now),
                ..old(self)@
            }),
            final(self).windows == old(self).windows,
    {
        self.pending.note(id, now);
    }

    /// Marks every window of a process to be walked again. Coarse on purpose: by the
    /// time a destruction is reported, its element cannot be traced to a window.
    pub fn note_windows_of(&mut self, pid: i32, now: u64)
        requires
            old(self).wf(),
        ensures
            final(self).wf(),
            final(self)@ == invalidated(old(self)@, pid, now),
    {
        let ghost first = self@;
        assert(first.windows.take(0) =~= Seq::<WindowView>::empty());
        let count: usize = self.windows.len();
        for i in 0..count
            invariant
                self.wf(),
                count == first.windows.len(),
                self@ == (DesktopView {
                    pending: noted_windows(
                        first.pending,
                        first.windows.take(i as int),
                        pid,
                        now,
                    ),
                    ..first
                }),
        {
            let ghost more = first.windows.take(i + 1);
            assert(more.drop_last() =~= first.windows.take(i as int));
            assert(more.last() == self.windows@[i as int]@);
            assert(self@.windows[i as int] == self.windows@[i as int]@);
            if self.windows[i].key.pid() == pid {
                let id: WindowId = self.windows[i].id;
                self.note(id, now);
            }
        }
        assert(first.windows.take(first.windows.len() as int) =~= first.windows);
    }

    /// Takes in a notification about an element, and says what else is to be done
    /// about it; see [`route_of`].
    pub fn route_notification(&mut self, notification: &str, key: ElementKey, now: u64) -> (routed:
        Routed)
        requires
            old(self).wf(),
        ensures
            final(self).wf(),
            routed == route_of(old(self)@, notification@, key),
            final(self)@ == after_notification(old(self)@, notification@, key, now),
    {
        match route(notification) {
            Route::Ignore => Routed::Done,
            Route::Refresh => match self.window_holding(key) {
                Some(i) => Routed::Refresh(i),
                None => {
                    self.note_windows_of(key.pid(), now);
                    Routed::Done
                },
            },
            Route::Focus => {
                let found: Option<usize> = match self.window_holding(key) {
                    Some(i) => Some(i),
                    None => self.find_owner(key.pid()),
                };
                match found {
                    Some(i) => {
                        let id: WindowId = self.windows[i].id;
                        proof {
                            assert(self@.windows[i as int] == self.windows@[i as int]@);
                            assert(has_window(self@.windows, id));
                        }
                        self.note(id, now);
                        match self.focus.focus(id) {
                            Some(change) => Routed::FocusChanged(change),
                            None => Routed::Done,
                        }
                    },
                    None => Routed::Done,
                }
            },
            _ => {
                self.note_windows_of(key.pid(), now);
                Routed::Done
            },
        }
    }

    /// The node that an element of a window is, from what was read of it again.
    /// `None` if the consumer holds no node for it.
    pub fn refreshed(&self, index: usize, key: ElementKey, read: &AxNode) -> (node: Option<
        (NodeId, Node),
    >)
        requires
            self.wf(),
            index < self.windows@.len(),
        ensures
            ({
                let window = self@.windows[index as int];
                match node {
                    Some((id, node)) => holding(key)(window) && id == id_of(
                        window.owners,
                        Owner::Element(key),
                    ) && node@ == refreshed_view(window, key, *read),
                    None => !holding(key)(window),
                }
            }),
    {
        let window: &WindowState = &self.windows[index];
        assert(self@.windows[index as int] == window@);
        assert(self.windows@[index as int].ids.wf());
        let id: NodeId = match window.ids.get(key) {
            Some(id) => id,
            None => {
                return None;
            },
        };
        if !window.emitted.holds(id) {
            return None;
        }
        let mut node: Node = build_container(read);
        let mut children: Vec<NodeId> = Vec::new();
        let mut selection: Option<TextSelection> = None;
        match window.shapes.get(id) {
            Some(shape) => {
                let ghost all = shape.children@;
                assert(all.take(0) =~= Seq::<NodeId>::empty());
                for i in 0..shape.children.len()
                    invariant
                        all == shape.children@,
                        children@ == held_ids(window.emitted@, all.take(i as int)),
                {
                    assert(all.take(i + 1).drop_last() =~= all.take(i as int));
                    if window.emitted.holds(shape.children[i]) {
                        children.push(shape.children[i]);
                    }
                }
                assert(all.take(all.len() as int) =~= all);
                selection = shape.selection;
            },
            None => {},
        }
        node.children = children;
        node.props.text_selection = selection;
        assert(node@ =~= refreshed_view(window@, key, *read));
        Some((id, node))
    }

    /// The update that carries a node that was read again and is ready for the wire,
    /// if it differs from what the consumer holds.
    pub fn emit_refresh(
        &mut self,
        index: usize,
        id: NodeId,
        node: ToolkitNode,
        tree_id: ToolkitTreeId,
    ) -> (update: Option<WireUpdate>)
        requires
            old(self).wf(),
            index < old(self).windows@.len(),
        ensures
            final(self).wf(),
            ({
                let window = old(self)@.windows[index as int];
                let after = WindowView {
                    emitted: after_refresh(window.emitted, id, encoding(node)),
                    ..window
                };
                &&& final(self)@ == (DesktopView {
                    windows: old(self)@.windows.update(index as int, after),
                    ..old(self)@
                })
                &&& wire_view(update) == (if differs(window.emitted.nodes, id, encoding(node)) {
                    Some(refresh_update(window, id, node, tree_id))
                } else {
                    None
                })
            }),
    {
        let ghost before = self@;
        let ghost states = self.windows@;
        let ghost window = before.windows[index as int];
        assert(window == self.windows@[index as int]@);
        assert(self.windows@[index as int].ids.wf());
        let send: bool = self.windows[index].emitted.reduce_node(id, &node);
        let focus: NodeId = match self.windows[index].emitted.focus() {
            Some(focus) => focus,
            None => id,
        };
        proof {
            let after = WindowView {
                emitted: after_refresh(window.emitted, id, encoding(node)),
                ..window
            };
            assert(self@.windows =~= before.windows.update(index as int, after));
            lemma_same_ids(before, self@);
            assert forall|i: int| 0 <= i < self.windows@.len() implies (
            #[trigger] self.windows@[i]).ids.wf() by {
                assert(states[i].ids.wf());
            }
        }
        if !send {
            return None;
        }
        let mut nodes: Vec<(NodeId, ToolkitNode)> = Vec::new();
        nodes.push((id, node));
        let update = WireUpdate { nodes, tree: None, tree_id, focus };
        assert(update@ =~= refresh_update(window, id, node, tree_id));
        Some(update)
    }

    /// The windows whose walk is due. Each is to be walked, and to be handed back to
    /// [`Desktop::rewalk`].
    pub fn take_due(&mut self, now: u64) -> (due: Vec<WindowId>)
        requires
            old(self).wf(),
        ensures
            final(self).wf(),
            due@.no_duplicates(),
            forall|id: WindowId| #[trigger]
                due@.contains(id) <==> old(self)@.pending.contains_key(id) && old(
                    self,
                )@.pending[id].deadline <= now,
            final(self)@ == (DesktopView { pending: final(self)@.pending, ..old(self)@ }),
            forall|id: WindowId| #[trigger]
                final(self)@.pending.contains_key(id) <==> old(self)@.pending.contains_key(id)
                    && old(self)@.pending[id].deadline > now,
            forall|id: WindowId| #[trigger]
                final(self)@.pending.contains_key(id) ==> final(self)@.pending[id] == old(
                    self,
                )@.pending[id],
    {
        let due: Vec<WindowId> = self.pending.take_due(now);
        proof {
            assert forall|id: WindowId| #[trigger]
                self@.pending.contains_key(id) implies has_window(self@.windows, id) by {
                assert(old(self)@.pending.contains_key(id));
            }
        }
        due
    }

    /// Takes in a new walk of a window, and gives the whole window's update, which is
    /// to be made ready for the wire and handed to [`Desktop::emit_walk`]. `None` if
    /// the walk came up empty or the window is gone.
    pub fn rewalk(&mut self, id: WindowId, nodes: &[AxNode], now: u64) -> (update: Option<
        TreeUpdate,
    >)
        requires
            old(self).wf(),
            forall|i: int| 0 <= i < nodes@.len() ==> range_fits(#[trigger] nodes@[i]),
        ensures
            final(self).wf(),
            final(self)@ == after_rewalk(old(self)@, id, nodes@, now),
            match find_first(old(self)@.windows, with_id(id)) {
                Some(i) if nodes@.len() > 0 => update matches Some(u) && u@ == window_update(
                    nodes@,
                    old(self)@.windows[i].owners,
                ),
                _ => update is None,
            },
    {
        let i: usize = match self.find_window(id) {
            Some(i) => i,
            None => {
                return None;
            },
        };
        let ghost before = self@;
        let ghost states = self.windows@;
        let ghost window = before.windows[i as int];
        assert(window == self.windows@[i as int]@);
        assert(self.windows@[i as int].ids.wf());
        let state = &mut self.windows[i];
        let built: Option<TreeUpdate> = build_window_update(nodes, &mut state.ids);
        match &built {
            Some(update) => {
                state.shapes = ShapeMap::of(update.nodes.as_slice());
            },
            None => {},
        }
        let again: bool = match state.settle_until {
            Some(until) => (now as u128) < until,
            None => false,
        };
        if nodes.len() > 0 && !again {
            state.settle_until = None;
        }
        proof {
            assert(self@.windows =~= before.windows.update(
                i as int,
                rewalked(window, nodes@, now),
            ));
            lemma_same_ids(before, self@);
            assert forall|k: int| 0 <= k < self.windows@.len() implies (
            #[trigger] self.windows@[k]).ids.wf() by {
                if k != i {
                    assert(states[k].ids.wf());
                }
            }
            lemma_window_found(before.windows, with_id(id));
            assert(self@.windows[i as int].id == id);
        }
        if nodes.len() > 0 && again {
            self.note(id, now);
        }
        built
    }

    /// Reduces a whole window's update, ready for the wire, to what is to be sent of
    /// it; `None` if nothing changed or the window is gone.
    pub fn emit_walk(&mut self, id: WindowId, full: WireUpdate) -> (update: Option<WireUpdate>)
        requires
            old(self).wf(),
        ensures
            final(self).wf(),
            match find_first(old(self)@.windows, with_id(id)) {
                Some(i) => {
                    let window = old(self)@.windows[i];
                    let codes = encodings(full.nodes@);
                    let after = WindowView {
                        emitted: after_walk(window.emitted, full@, codes),
                        ..window
                    };
                    &&& wire_view(update) == sent(window.emitted, full@, codes)
                    &&& final(self)@ == (DesktopView {
                        windows: old(self)@.windows.update(i, after),
                        ..old(self)@
                    })
                },
                None => update is None && final(self)@ == old(self)@,
            },
    {
        let i: usize = match self.find_window(id) {
            Some(i) => i,
            None => {
                return None;
            },
        };
        let ghost before = self@;
        let ghost states = self.windows@;
        let ghost window = before.windows[i as int];
        assert(window == self.windows@[i as int]@);
        let ghost wanted = after_walk(window.emitted, full@, encodings(full.nodes@));
        let update: Option<WireUpdate> = self.windows[i].emitted.reduce(full);
        proof {
            assert(self@.windows =~= before.windows.update(
                i as int,
                WindowView { emitted: wanted, ..window },
            ));
            lemma_same_ids(before, self@);
            assert forall|k: int| 0 <= k < self.windows@.len() implies (
            #[trigger] self.windows@[k]).ids.wf() by {
                assert(states[k].ids.wf());
            }
        }
        update
    }
}

/// What is sound stays so as long as the windows keep their ids.
pub proof fn lemma_same_ids(before: DesktopView, after: DesktopView)
    requires
        sound(before),
        after.windows.len() == before.windows.len(),
        forall|i: int|
            0 <= i < before.windows.len() ==> (#[trigger] after.windows[i]).id
                == before.windows[i].id,
        after.next_id == before.next_id,
        after.focus == before.focus,
        after.pending == before.pending,
    ensures
        sound(after),
{
    assert forall|id: WindowId| has_window(before.windows, id) implies #[trigger] has_window(
        after.windows,
        id,
    ) by {
        let i = choose|i: int| 0 <= i < before.windows.len() && (#[trigger] before.windows[i]).id
            == id;
        assert(after.windows[i].id == id);
    }
    assert forall|i: int, j: int| 0 <= i < j < after.windows.len() implies (
    #[trigger] after.windows[i]).id != (#[trigger] after.windows[j]).id by {
        assert(before.windows[i].id != before.windows[j].id);
    }
    assert forall|i: int| 0 <= i < after.windows.len() implies (#[trigger] after.windows[i]).id.0
        < after.next_id by {
        assert(before.windows[i].id.0 < before.next_id);
    }
}

/// A window that an action was performed on is walked again as long as it is
/// settling, whatever each walk finds, and not beyond that.
pub proof fn law_a_settling_window_is_walked_again(
    desktop: DesktopView,
    i: int,
    nodes: Seq<AxNode>,
    now: u64,
)
    requires
        sound(desktop),
        0 <= i < desktop.windows.len(),
        nodes.len() > 0,
    ensures
        ({
            let id = desktop.windows[i].id;
            let after = after_rewalk(desktop, id, nodes, now);
            &&& after.windows[i].id == id
            &&& settling(desktop.windows[i], now) ==> after.pending.contains_key(id)
                && after.windows[i].settle_until == desktop.windows[i].settle_until
            &&& !settling(desktop.windows[i], now) ==> after.pending == desktop.pending
                && after.windows[i].settle_until is None
        }),
{
    let id = desktop.windows[i].id;
    assert forall|j: int| 0 <= j < i implies !with_id(id)(#[trigger] desktop.windows[j]) by {
        assert(desktop.windows[j].id != desktop.windows[i].id);
    }
    lemma_found(desktop.windows, with_id(id), i);
}

// ---------------------------------------------------------------- what notifications do

/// Whether a walk is due as an invalidation at `now` leaves it: a quarter of a second
/// after it, but at most two seconds after the first of a burst.
pub open spec fn due_after(before: Map<WindowId, Pending>, id: WindowId, now: u64, after: Pending) -> bool {
    let latest = if before.contains_key(id) {
        before[id].latest as int
    } else {
        now + 2000
    };
    &&& after.latest == latest
    &&& after.deadline <= latest
    &&& after.deadline <= now + 250
    &&& after.deadline == latest || after.deadline == now + 250
}

/// When the windows of a process are invalidated, each of them is due to be walked again,
/// and no other window is touched.
pub proof fn law_all_windows_of_a_process_are_invalidated(
    desktop: DesktopView,
    pid: i32,
    now: u64,
    id: WindowId,
)
    ensures
        ({
            let after = invalidated(desktop, pid, now);
            let concerned = exists|i: int|
                0 <= i < desktop.windows.len() && (#[trigger] desktop.windows[i]).id == id
                    && desktop.windows[i].key.owner() == pid;
            &&& after.windows == desktop.windows
            &&& after.next_id == desktop.next_id
            &&& after.focus == desktop.focus
            &&& after.observed == desktop.observed
            &&& concerned ==> after.pending.contains_key(id) && due_after(
                desktop.pending,
                id,
                now,
                after.pending[id],
            )
            &&& !concerned ==> {
                &&& after.pending.contains_key(id) == desktop.pending.contains_key(id)
                &&& desktop.pending.contains_key(id) ==> after.pending[id] == desktop.pending[id]
            }
        }),
{
    lemma_noted_windows(desktop.pending, desktop.windows, pid, now, id);
}

proof fn lemma_noted_windows(
    pending: Map<WindowId, Pending>,
    windows: Seq<WindowView>,
    pid: i32,
    now: u64,
    id: WindowId,
)
    ensures
        ({
            let after = noted_windows(pending, windows, pid, now);
            let concerned = exists|i: int|
                0 <= i < windows.len() && (#[trigger] windows[i]).id == id && windows[i].key.owner()
                    == pid;
            &&& concerned ==> after.contains_key(id) && due_after(pending, id, now, after[id])
            &&& !concerned ==> {
                &&& after.contains_key(id) == pending.contains_key(id)
                &&& pending.contains_key(id) ==> after[id] == pending[id]
            }
        }),
    decreases windows.len(),
{
    if windows.len() > 0 {
        let (init, last) = (windows.drop_last(), windows.last());
        let n = windows.len() - 1;
        lemma_noted_windows(pending, init, pid, now, id);
        if exists|i: int|
            0 <= i < init.len() && (#[trigger] init[i]).id == id && init[i].key.owner() == pid {
            let i = choose|i: int|
                0 <= i < init.len() && (#[trigger] init[i]).id == id && init[i].key.owner() == pid;
            assert(windows[i].id == id && windows[i].key.owner() == pid);
        } else if exists|i: int|
            0 <= i < windows.len() && (#[trigger] windows[i]).id == id && windows[i].key.owner()
                == pid {
            let i = choose|i: int|
                0 <= i < windows.len() && (#[trigger] windows[i]).id == id && windows[i].key.owner()
                    == pid;
            if i < n {
                assert(init[i].id == id && init[i].key.owner() == pid);
            }
        }
        if last.key.owner() == pid && last.id == id {
            assert(windows[n].id == id);
        }
    }
}

/// A notification that is not asked for changes nothing. One that a window appeared,
/// vanished or changed its shape invalidates every window of the process, and nothing
/// further is to be done.
pub proof fn law_a_changed_shape_invalidates_the_process(
    desktop: DesktopView,
    notification: Seq<char>,
    key: ElementKey,
    now: u64,
)
    ensures
        ({
            let after = after_notification(desktop, notification, key, now);
            let next = route_of(desktop, notification, key);
            &&& routed(notification) == Route::Ignore ==> after == desktop && next == Routed::Done
            &&& routed(notification) == Route::Lifecycle || routed(notification) == Route::Rewalk
                ==> after == invalidated(desktop, key.owner(), now) && next == Routed::Done
        }),
{
}

/// A changed node is read again where a window's consumer holds a node for the element:
/// in the first such window, and nothing else is touched. Where none does, every window
/// of the process is invalidated instead.
pub proof fn law_a_changed_node_is_read_where_it_is_held(
    desktop: DesktopView,
    notification: Seq<char>,
    key: ElementKey,
    now: u64,
    i: int,
)
    requires
        routed(notification) == Route::Refresh,
        0 <= i < desktop.windows.len() <= usize::MAX,
    ensures
        ({
            let after = after_notification(desktop, notification, key, now);
            let next = route_of(desktop, notification, key);
            let holds = |w: WindowView|
                w.owners.contains(Owner::Element(key)) && w.emitted.nodes.contains_key(
                    NodeId(w.owners.index_of(Owner::Element(key)) as u64),
                );
            &&& holds(desktop.windows[i]) ==> after == desktop && (next matches Routed::Refresh(k)
                && k <= i)
            &&& next matches Routed::Refresh(k) ==> k < desktop.windows.len() && holds(
                desktop.windows[k as int],
            )
            &&& next is Refresh || next == Routed::Done
            &&& next == Routed::Done ==> after == invalidated(desktop, key.owner(), now)
        }),
{
    law_the_first_is_found(desktop.windows, holding(key), i);
}

/// When focus moves, it is to the first window that holds the element, or else to the
/// first of its process, which is to be walked again. It is reported if another window
/// had it. Nothing else about the desktop changes, and nothing at all if the process has
/// no window.
pub proof fn law_focus_follows_the_element(
    desktop: DesktopView,
    notification: Seq<char>,
    key: ElementKey,
    now: u64,
    i: int,
)
    requires
        routed(notification) == Route::Focus,
        0 <= i < desktop.windows.len(),
    ensures
        ({
            let after = after_notification(desktop, notification, key, now);
            let next = route_of(desktop, notification, key);
            let found = focused_window(desktop.windows, key);
            let holds = |w: WindowView|
                w.owners.contains(Owner::Element(key)) && w.emitted.nodes.contains_key(
                    NodeId(w.owners.index_of(Owner::Element(key)) as u64),
                );
            &&& after.windows == desktop.windows
            &&& after.next_id == desktop.next_id
            &&& after.observed == desktop.observed
            &&& found is None ==> after == desktop && next == Routed::Done && !holds(
                desktop.windows[i],
            ) && desktop.windows[i].key.owner() != key.owner()
            &&& found matches Some(k) ==> {
                let id = desktop.windows[k].id;
                &&& 0 <= k < desktop.windows.len()
                &&& after.focus == Some(id)
                &&& after.pending.contains_key(id)
                &&& due_after(desktop.pending, id, now, after.pending[id])
                &&& holds(desktop.windows[i]) ==> k <= i && holds(desktop.windows[k])
                &&& !holds(desktop.windows[k]) ==> desktop.windows[k].key.owner() == key.owner()
                    && (desktop.windows[i].key.owner() == key.owner() ==> k <= i)
                &&& desktop.focus != Some(id) ==> next == Routed::FocusChanged(Some(id))
                &&& desktop.focus == Some(id) ==> next == Routed::Done
            }
        }),
{
    law_the_first_is_found(desktop.windows, holding(key), i);
    law_the_first_is_found(desktop.windows, owned_by(key.owner()), i);
}

// ---------------------------------------------------------------- what refreshes and walks do

/// A node that was read again says what was read. Of the children it was emitted with it
/// keeps those that the consumer holds, in their order, and its selection is the one it
/// was emitted with.
pub proof fn law_a_refresh_says_what_was_read(window: WindowView, key: ElementKey, read: AxNode)
    ensures
        ({
            let (node, own) = (refreshed_view(window, key, read), container_of(read));
            let id = NodeId(window.owners.index_of(Owner::Element(key)) as u64);
            &&& node == NodeView {
                props: Properties { text_selection: node.props.text_selection, ..own.props },
                children: node.children,
                ..own
            }
            &&& window.shapes.contains_key(id) ==> node.children
                == window.shapes[id].children.filter(
                |child: NodeId| window.emitted.nodes.contains_key(child),
            ) && node.props.text_selection == window.shapes[id].selection
            &&& !window.shapes.contains_key(id) ==> node.children.len() == 0
                && node.props.text_selection is None
        }),
{
    let id = id_of(window.owners, Owner::Element(key));
    if window.shapes.contains_key(id) {
        lemma_held_ids_is_filter(window.emitted, window.shapes[id].children);
    }
}

proof fn lemma_held_ids_is_filter(emitted: EmittedView, ids: Seq<NodeId>)
    ensures
        held_ids(emitted, ids) == ids.filter(|id: NodeId| emitted.nodes.contains_key(id)),
    decreases ids.len(),
{
    reveal(Seq::filter);
    if ids.len() > 0 {
        lemma_held_ids_is_filter(emitted, ids.drop_last());
    }
}

/// A refresh carries its one node and no tree. Focus stays where the consumer believes
/// it; before it believes anything, focus is on the node itself.
pub proof fn law_a_refresh_leaves_focus(
    window: WindowView,
    id: NodeId,
    node: ToolkitNode,
    tree_id: ToolkitTreeId,
)
    ensures
        ({
            let update = refresh_update(window, id, node, tree_id);
            &&& update.nodes.len() == 1
            &&& update.nodes[0] == (id, node)
            &&& update.tree is None
            &&& update.tree_id == tree_id
            &&& window.emitted.focus is Some ==> Some(update.focus) == window.emitted.focus
            &&& window.emitted.focus is None ==> update.focus == id
        }),
{
}

/// A walk changes one window: the first of its id. That window keeps its element, what
/// its consumer holds, and every id it has given; it knows the shape of every node of
/// the walk. An empty walk changes nothing.
pub proof fn law_a_walk_changes_its_window_only(
    desktop: DesktopView,
    id: WindowId,
    nodes: Seq<AxNode>,
    now: u64,
    i: int,
)
    requires
        0 <= i < desktop.windows.len(),
    ensures
        ({
            let after = after_rewalk(desktop, id, nodes, now);
            let (was, is) = (desktop.windows[i], after.windows[i]);
            let first = was.id == id && forall|j: int|
                0 <= j < i ==> (#[trigger] desktop.windows[j]).id != id;
            &&& after.windows.len() == desktop.windows.len()
            &&& after.next_id == desktop.next_id
            &&& after.focus == desktop.focus
            &&& after.observed == desktop.observed
            &&& is.id == was.id
            &&& is.key == was.key
            &&& is.emitted == was.emitted
            &&& !first || nodes.len() == 0 ==> is == was
            &&& nodes.len() == 0 ==> after.pending == desktop.pending
            &&& first && nodes.len() > 0 ==> {
                &&& is.owners == window_emission(nodes, was.owners).owners
                &&& is.shapes == shapes_of(window_update(nodes, was.owners).nodes)
            }
        }),
{
    let fits = with_id(id);
    let (was, found) = (desktop.windows[i], find_first(desktop.windows, fits));
    if was.id == id && forall|j: int| 0 <= j < i ==> (#[trigger] desktop.windows[j]).id != id {
        assert(first_match(desktop.windows, fits, i));
        lemma_found(desktop.windows, fits, i);
    } else if found == Some(i) {
        assert(first_match(desktop.windows, fits, i));
        assert(forall|j: int| 0 <= j < i ==> (#[trigger] desktop.windows[j]).id != id);
    }
}

} // verus!
