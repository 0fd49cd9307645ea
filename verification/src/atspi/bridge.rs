//! How a source that mirrors the accessibility bus reacts: each signal, action
//! and timer to the work it calls for.

use crate::atspi::coalesce::noted;
use crate::atspi::coalesce::Pending;
use crate::atspi::coalesce::RewalkCoalescer;
use crate::atspi::source::action_target_of;
use crate::atspi::source::focus_events;
use crate::atspi::source::focus_moved;
use crate::atspi::source::ids_where;
use crate::atspi::source::law_windows_belong_to_their_application;
use crate::atspi::source::lemma_ids_where;
use crate::atspi::source::owned_by;
use crate::atspi::source::resolve_focus_target;
use crate::atspi::source::showing;
use crate::atspi::source::texting;
use crate::atspi::source::window_views;
use crate::atspi::source::ActionTarget;
use crate::atspi::source::Mirror;
use crate::atspi::source::MirrorView;
use crate::atspi::source::ObjectName;
use crate::atspi::source::PerformMsg;
use crate::atspi::source::TextTarget;
use crate::atspi::source::WindowView;
use crate::atspi::source::ATSPI_ROOT_PATH;
use crate::atspi::source::REWALK_DEBOUNCE_MAX_DELAY;
use crate::atspi::source::REWALK_DEBOUNCE_QUIET;
use crate::atspi::vocabulary::State;
use crate::messages::WindowId;
use crate::search::find_first;
use crate::search::first_match;
use crate::search::lemma_found;
use crate::search::lemma_not_found;
use crate::source::event_views;
use crate::source::lemma_event_push;
use crate::source::SourceEvent;
use crate::source::SourceEventView;
use crate::strings::same;
use vstd::prelude::*;

verus! {

/// A signal from the bus, as far as it matters.
#[derive(Debug, Clone)]
pub enum AtspiEvent {
    WindowCreated,
    WindowDestroyed,
    Activated { sender: String, path: String },
    Deactivated { sender: String, path: String },
    ChildrenChanged { sender: String, path: String },
    StateChanged { sender: String, path: String, state: State, enabled: bool },
    ActiveDescendantChanged { sender: String, descendant: String },
    CaretMoved(ObjectName),
    TextChanged(ObjectName),
    SelectionChanged(ObjectName),
    Other,
}

/// Whether a signal means that a toplevel was added or removed, as opposed to a
/// change within a window. Some toolkits report that as children changing at the
/// bus's root path only.
pub open spec fn window_lifecycle(event: AtspiEvent) -> bool {
    match event {
        AtspiEvent::WindowCreated => true,
        AtspiEvent::WindowDestroyed => true,
        AtspiEvent::ChildrenChanged { path, .. } => path@ == ATSPI_ROOT_PATH@,
        _ => false,
    }
}

/// See [`window_lifecycle`].
pub fn is_window_lifecycle_event(event: &AtspiEvent) -> (lifecycle: bool)
    ensures
        lifecycle == window_lifecycle(*event),
{
    match event {
        AtspiEvent::WindowCreated | AtspiEvent::WindowDestroyed => true,
        AtspiEvent::ChildrenChanged { path, .. } => same(path.as_str(), ATSPI_ROOT_PATH),
        _ => false,
    }
}

/// What a signal calls for.
#[derive(Debug)]
pub enum Reaction {
    /// Nothing more than to report these.
    Report(Vec<SourceEvent>),
    /// To discover the toplevels afresh, and reconcile.
    Reconcile,
    /// To walk these windows again and report them.
    Rewalk(Vec<WindowId>),
    /// To walk these windows again and report them, and then move window focus.
    Activation { targets: Vec<WindowId>, activated: bool },
    /// To read a text again, with or without its geometry.
    ReadText { target: TextTarget, with_geometry: bool },
}

/// The content of a reaction.
#[verifier::ext_equal]
pub enum ReactionView {
    Report(Seq<SourceEventView>),
    Reconcile,
    Rewalk(Seq<WindowId>),
    Activation { targets: Seq<WindowId>, activated: bool },
    ReadText { target: TextTarget, with_geometry: bool },
}

impl View for Reaction {
    type V = ReactionView;

    open spec fn view(&self) -> ReactionView {
        match self {
            Reaction::Report(events) => ReactionView::Report(event_views(events@)),
            Reaction::Reconcile => ReactionView::Reconcile,
            Reaction::Rewalk(windows) => ReactionView::Rewalk(windows@),
            Reaction::Activation { targets, activated } => ReactionView::Activation {
                targets: targets@,
                activated: *activated,
            },
            Reaction::ReadText { target, with_geometry } => ReactionView::ReadText {
                target: *target,
                with_geometry: *with_geometry,
            },
        }
    }
}

/// Whether a window's root is this object of the application at `sender`.
pub open spec fn rooted_at(sender: Seq<char>, path: Seq<char>) -> spec_fn(WindowView) -> bool {
    |w: WindowView| w.root == (Some(sender), path)
}

/// The text target of an object, if a window has it as a text.
pub open spec fn text_target_of(windows: Seq<WindowView>, item: ObjectName) -> Option<TextTarget> {
    match item@.0 {
        Some(sender) => match find_first(windows, texting(sender, item@.1)) {
            Some(i) => Some(
                TextTarget {
                    index: i as usize,
                    with_caret: windows[i].cache.text[item@.1].caret_enabled,
                },
            ),
            None => None,
        },
        None => None,
    }
}

/// What reading a text again comes to: nothing, if no window has it.
pub open spec fn text_reaction(windows: Seq<WindowView>, item: ObjectName, geometry: bool) -> ReactionView {
    match text_target_of(windows, item) {
        Some(target) => ReactionView::ReadText { target, with_geometry: geometry },
        None => ReactionView::Report(Seq::empty()),
    }
}

/// What is scheduled after a deep change in each of `windows`.
pub open spec fn noted_each(
    pending: Map<WindowId, Pending>,
    quiet: u64,
    max_delay: u64,
    windows: Seq<WindowId>,
    now: u64,
) -> Map<WindowId, Pending>
    decreases windows.len(),
{
    if windows.len() == 0 {
        pending
    } else {
        noted(
            noted_each(pending, quiet, max_delay, windows.drop_last(), now),
            quiet,
            max_delay,
            windows.last(),
            now,
        )
    }
}

/// How a focus gain is reflected: by moving focus, or, for an object that has not
/// been walked yet, by walking its application's windows again, so that a fresh
/// tree carries the focused state.
pub open spec fn focus_reaction(mirror: MirrorView, sender: Seq<char>, path: Seq<char>) -> (
    MirrorView,
    ReactionView,
) {
    match find_first(mirror.windows, showing(sender, path)) {
        Some(i) => {
            let window = mirror.windows[i];
            let node = window.ids[path];
            (
                focus_moved(mirror, window.id, node),
                ReactionView::Report(focus_events(mirror, window.id, node)),
            )
        },
        None => (mirror, ReactionView::Rewalk(ids_where(mirror.windows, owned_by(sender)))),
    }
}

/// How focus moving among a container's descendants is reflected: by moving focus,
/// or not at all for a descendant that is not in the current tree.
pub open spec fn descendant_reaction(mirror: MirrorView, sender: Seq<char>, path: Seq<char>) -> (
    MirrorView,
    ReactionView,
) {
    match find_first(mirror.windows, showing(sender, path)) {
        Some(i) => focus_reaction(mirror, sender, path),
        None => (mirror, ReactionView::Report(Seq::empty())),
    }
}

/// How a signal is reflected: the mirror after it, and what it calls for. Losing
/// focus is not reflected: "nothing focused" is a matter between windows only.
pub open spec fn reaction(mirror: MirrorView, event: AtspiEvent) -> (MirrorView, ReactionView) {
    if window_lifecycle(event) {
        (mirror, ReactionView::Reconcile)
    } else {
        match event {
            AtspiEvent::StateChanged { sender, path, state, enabled } if state == State::Focused
                && enabled => focus_reaction(mirror, sender@, path@),
            AtspiEvent::ActiveDescendantChanged { sender, descendant } => descendant_reaction(
                mirror,
                sender@,
                descendant@,
            ),
            AtspiEvent::CaretMoved(item) => (mirror, text_reaction(mirror.windows, item, false)),
            AtspiEvent::TextChanged(item) => (mirror, text_reaction(mirror.windows, item, true)),
            AtspiEvent::SelectionChanged(item) => (
                mirror,
                text_reaction(mirror.windows, item, false),
            ),
            AtspiEvent::Activated { sender, path } => (
                mirror,
                ReactionView::Activation {
                    targets: ids_where(mirror.windows, rooted_at(sender@, path@)),
                    activated: true,
                },
            ),
            AtspiEvent::Deactivated { sender, path } => (
                mirror,
                ReactionView::Activation {
                    targets: ids_where(mirror.windows, rooted_at(sender@, path@)),
                    activated: false,
                },
            ),
            _ => (mirror, ReactionView::Report(Seq::empty())),
        }
    }
}

/// The windows that a signal schedules for another walk: those of the application
/// in which something deep changed.
pub open spec fn to_note(mirror: MirrorView, event: AtspiEvent) -> Seq<WindowId> {
    match event {
        AtspiEvent::ChildrenChanged { sender, .. } if !window_lifecycle(event) => ids_where(
            mirror.windows,
            owned_by(sender@),
        ),
        _ => Seq::empty(),
    }
}

/// The events of windows gaining or losing focus, in order, and the focus after.
pub open spec fn activation_events(
    focus: Option<WindowId>,
    targets: Seq<WindowId>,
    activated: bool,
) -> (Option<WindowId>, Seq<SourceEventView>)
    decreases targets.len(),
{
    if targets.len() == 0 {
        (focus, Seq::empty())
    } else {
        let (before, events) = activation_events(focus, targets.drop_last(), activated);
        let window = targets.last();
        if activated {
            if before == Some(window) {
                (before, events)
            } else {
                (Some(window), events.push(SourceEventView::FocusChanged(Some(window))))
            }
        } else if before == Some(window) {
            (None, events.push(SourceEventView::FocusChanged(None)))
        } else {
            (before, events)
        }
    }
}

fn no_events() -> (reaction: Reaction)
    ensures
        reaction@ == ReactionView::Report(Seq::empty()),
{
    let events: Vec<SourceEvent> = Vec::new();
    assert(event_views(events@) =~= Seq::<SourceEventView>::empty());
    Reaction::Report(events)
}

impl Mirror {
    fn read_text(&self, item: &ObjectName, with_geometry: bool) -> (reaction: Reaction)
        ensures
            reaction@ == text_reaction(self@.windows, *item, with_geometry),
    {
        match self.text_target(item) {
            Some(target) => Reaction::ReadText { target, with_geometry },
            None => no_events(),
        }
    }

    /// The windows whose root is this object of the application at `sender`.
    fn windows_rooted_at(&self, sender: &str, path: &str) -> (ids: Vec<WindowId>)
        ensures
            ids@ == ids_where(self@.windows, rooted_at(sender@, path@)),
    {
        let ghost all = self@.windows;
        let mut ids: Vec<WindowId> = Vec::new();
        for i in 0..self.windows.len()
            invariant
                all == window_views(self.windows@),
                ids@ == ids_where(all.take(i as int), rooted_at(sender@, path@)),
        {
            assert(all.take(i + 1).drop_last() =~= all.take(i as int));
            assert(all.take(i + 1).last() == self.windows@[i as int]@);
            if same(self.windows[i].root.path.as_str(), path) && self.windows[i].root.is_of(
                sender,
            ) {
                ids.push(self.windows[i].id);
            }
        }
        assert(all.take(self.windows@.len() as int) =~= all);
        ids
    }

    /// Reflects a focus change; see [`focus_reaction`].
    fn handle_focus_change(&mut self, sender: &str, path: &str) -> (reaction: Reaction)
        requires
            old(self).wf(),
        ensures
            final(self).wf(),
            (final(self)@, reaction@) == focus_reaction(old(self)@, sender@, path@),
    {
        match resolve_focus_target(self.windows.as_slice(), sender, path) {
            Some((window, node)) => {
                let events: Vec<SourceEvent> = self.emit_node_focus(window, node);
                Reaction::Report(events)
            },
            None => Reaction::Rewalk(self.windows_of_sender(sender)),
        }
    }

    /// Reflects a signal: changes the state as far as no bus call is needed, and
    /// says what is. A deep change schedules a walk in `pending` and calls for
    /// nothing at once.
    pub fn handle_atspi_event(
        &mut self,
        event: &AtspiEvent,
        pending: &mut RewalkCoalescer,
        now: u64,
    ) -> (outcome: Reaction)
        requires
            old(self).wf(),
            old(pending).wf(),
        ensures
            final(self).wf(),
            final(pending).wf(),
            final(pending).quiet_time() == old(pending).quiet_time(),
            final(pending).longest_delay() == old(pending).longest_delay(),
            (final(self)@, outcome@) == reaction(old(self)@, *event),
            final(pending)@ == noted_each(
                old(pending)@,
                old(pending).quiet_time(),
                old(pending).longest_delay(),
                to_note(old(self)@, *event),
                now,
            ),
    {
        if is_window_lifecycle_event(event) {
            return Reaction::Reconcile;
        }
        match event {
            AtspiEvent::StateChanged { sender, path, state, enabled } => {
                if *state == State::Focused && *enabled {
                    self.handle_focus_change(sender.as_str(), path.as_str())
                } else {
                    no_events()
                }
            },
            AtspiEvent::ActiveDescendantChanged { sender, descendant } => {
                let events: Vec<SourceEvent> = self.handle_active_descendant(
                    sender.as_str(),
                    descendant.as_str(),
                );
                assert(events@.len() == 0 ==> event_views(events@) =~= Seq::<
                    SourceEventView,
                >::empty());
                Reaction::Report(events)
            },
            AtspiEvent::CaretMoved(item) => self.read_text(item, false),
            AtspiEvent::TextChanged(item) => self.read_text(item, true),
            AtspiEvent::SelectionChanged(item) => self.read_text(item, false),
            AtspiEvent::ChildrenChanged { sender, path } => {
                let windows: Vec<WindowId> = self.windows_of_sender(sender.as_str());
                note_each(pending, &windows, now);
                no_events()
            },
            AtspiEvent::Activated { sender, path } => Reaction::Activation {
                targets: self.windows_rooted_at(sender.as_str(), path.as_str()),
                activated: true,
            },
            AtspiEvent::Deactivated { sender, path } => Reaction::Activation {
                targets: self.windows_rooted_at(sender.as_str(), path.as_str()),
                activated: false,
            },
            _ => no_events(),
        }
    }

    /// Moves window focus after the windows have been walked again, so that the
    /// consumer has the fresh tree before focus moves to it.
    pub fn advance_focus(&mut self, targets: &[WindowId], activated: bool) -> (events: Vec<
        SourceEvent,
    >)
        requires
            old(self).wf(),
        ensures
            final(self).wf(),
            ({
                let (focus, out) = activation_events(old(self)@.focus, targets@, activated);
                &&& final(self)@ == MirrorView { focus, ..old(self)@ }
                &&& event_views(events@) == out
            }),
    {
        let ghost first = self@.focus;
        let mut events: Vec<SourceEvent> = Vec::new();
        assert(event_views(events@) =~= Seq::<SourceEventView>::empty());
        for i in 0..targets.len()
            invariant
                self.wf(),
                self.windows@ == old(self).windows@,
                self.next_id == old(self).next_id,
                (self.focus@, event_views(events@)) == activation_events(
                    first,
                    targets@.take(i as int),
                    activated,
                ),
        {
            assert(targets@.take(i + 1).drop_last() =~= targets@.take(i as int));
            let change: Option<Option<WindowId>> = if activated {
                self.focus.focus(targets[i])
            } else {
                self.focus.deactivate(targets[i])
            };
            match change {
                Some(window) => {
                    let event = SourceEvent::FocusChanged(window);
                    proof {
                        lemma_event_push(events@, event);
                    }
                    events.push(event);
                },
                None => {},
            }
        }
        assert(targets@.take(targets@.len() as int) =~= targets@);
        events
    }
}

/// Schedules a walk of each of `windows`; see [`noted_each`].
fn note_each(pending: &mut RewalkCoalescer, windows: &Vec<WindowId>, now: u64)
    requires
        old(pending).wf(),
    ensures
        final(pending).wf(),
        final(pending).quiet_time() == old(pending).quiet_time(),
        final(pending).longest_delay() == old(pending).longest_delay(),
        final(pending)@ == noted_each(
            old(pending)@,
            old(pending).quiet_time(),
            old(pending).longest_delay(),
            windows@,
            now,
        ),
{
    let ghost (first, quiet, longest) = (
        pending@,
        pending.quiet_time(),
        pending.longest_delay(),
    );
    for i in 0..windows.len()
        invariant
            pending.wf(),
            pending.quiet_time() == quiet,
            pending.longest_delay() == longest,
            pending@ == noted_each(first, quiet, longest, windows@.take(i as int), now),
    {
        assert(windows@.take(i + 1).drop_last() =~= windows@.take(i as int));
        pending.note(windows[i], now);
    }
    assert(windows@.take(windows@.len() as int) =~= windows@);
}

// ---------------------------------------------------------------- the bridge

/// What a bridge waits for.
#[derive(Debug)]
pub enum BridgeInput {
    /// A consumer asks for an action.
    Action(PerformMsg),
    /// No more actions will come.
    ActionsClosed,
    /// A signal arrived.
    Signal(AtspiEvent),
    /// A signal arrived that could not be read.
    SignalUnreadable,
    /// No more signals will come.
    SignalsEnded,
    /// The earliest scheduled walk may be due.
    RewalkDue,
    /// It is time to reconcile.
    ReconcileTick,
}

/// What is to be done about it.
#[derive(Debug)]
pub enum BridgeWork {
    Nothing,
    /// To act on an object, and if that succeeds, to walk the window again and
    /// report it.
    Perform { window: WindowId, target: ActionTarget },
    React(Reaction),
    /// To walk these windows again and report them.
    Rewalk(Vec<WindowId>),
    /// To discover the toplevels afresh, and reconcile.
    Reconcile,
    Stop,
}

/// A mirror, and the walks that are scheduled.
pub struct Bridge {
    pub mirror: Mirror,
    pub pending: RewalkCoalescer,
}

impl Bridge {
    pub open spec fn wf(&self) -> bool {
        &&& self.mirror.wf()
        &&& self.pending.wf()
        &&& self.pending.quiet_time() == REWALK_DEBOUNCE_QUIET
        &&& self.pending.longest_delay() == REWALK_DEBOUNCE_MAX_DELAY
    }

    /// A bridge around a mirror that has been filled.
    pub fn new(mirror: Mirror) -> (bridge: Self)
        requires
            mirror.wf(),
        ensures
            bridge.wf(),
            bridge.mirror == mirror,
            bridge.pending@ == Map::<WindowId, Pending>::empty(),
    {
        Bridge {
            mirror,
            pending: RewalkCoalescer::new(REWALK_DEBOUNCE_QUIET, REWALK_DEBOUNCE_MAX_DELAY),
        }
    }

    /// Takes what has come at `now`, in milliseconds, and says what is to be done
    /// about it. Signals that arrive while a window is being walked start a burst
    /// of their own, so nothing is lost.
    pub fn step(&mut self, input: BridgeInput, now: u64) -> (work: BridgeWork)
        requires
            old(self).wf(),
        ensures
            final(self).wf(),
            match input {
                BridgeInput::Action(msg) => {
                    &&& final(self).mirror@ == old(self).mirror@
                    &&& final(self).pending@ == old(self).pending@
                    &&& match action_target_of(old(self).mirror@.windows, msg) {
                        Some(target) => work == BridgeWork::Perform { window: msg.window, target },
                        None => work is Nothing,
                    }
                },
                BridgeInput::Signal(event) => {
                    &&& work matches BridgeWork::React(outcome) && (
                    final(self).mirror@,
                    outcome@,
                    ) == reaction(old(self).mirror@, event)
                    &&& final(self).pending@ == noted_each(
                        old(self).pending@,
                        REWALK_DEBOUNCE_QUIET,
                        REWALK_DEBOUNCE_MAX_DELAY,
                        to_note(old(self).mirror@, event),
                        now,
                    )
                },
                BridgeInput::RewalkDue => {
                    &&& final(self).mirror@ == old(self).mirror@
                    &&& work matches BridgeWork::Rewalk(due) && due@.no_duplicates() && (
                    forall|w: WindowId| #[trigger]
                        due@.contains(w) <==> old(self).pending@.contains_key(w)
                            && old(self).pending@[w].deadline <= now)
                    &&& forall|w: WindowId| #[trigger]
                        final(self).pending@.contains_key(w) <==> old(self).pending@.contains_key(w)
                            && old(self).pending@[w].deadline > now
                    &&& forall|w: WindowId| #[trigger]
                        final(self).pending@.contains_key(w) ==> final(self).pending@[w] == old(
                            self,
                        ).pending@[w]
                },
                BridgeInput::ActionsClosed => work is Stop && final(self).mirror@ == old(
                    self,
                ).mirror@ && final(self).pending@ == old(self).pending@,
                BridgeInput::SignalsEnded => work is Stop && final(self).mirror@ == old(
                    self,
                ).mirror@ && final(self).pending@ == old(self).pending@,
                BridgeInput::SignalUnreadable => work is Nothing && final(self).mirror@ == old(
                    self,
                ).mirror@ && final(self).pending@ == old(self).pending@,
                BridgeInput::ReconcileTick => work is Reconcile && final(self).mirror@ == old(
                    self,
                ).mirror@ && final(self).pending@ == old(self).pending@,
            },
    {
        match input {
            BridgeInput::Action(msg) => match self.mirror.action_target(&msg) {
                Some(target) => BridgeWork::Perform { window: msg.window, target },
                None => BridgeWork::Nothing,
            },
            BridgeInput::ActionsClosed => BridgeWork::Stop,
            BridgeInput::Signal(event) => BridgeWork::React(
                self.mirror.handle_atspi_event(&event, &mut self.pending, now),
            ),
            BridgeInput::SignalUnreadable => BridgeWork::Nothing,
            BridgeInput::SignalsEnded => BridgeWork::Stop,
            BridgeInput::RewalkDue => BridgeWork::Rewalk(self.pending.take_due(now)),
            BridgeInput::ReconcileTick => BridgeWork::Reconcile,
        }
    }

    /// Forgets the walks scheduled for windows that are gone.
    pub fn discard_removed(&mut self, events: &[SourceEvent])
        requires
            old(self).wf(),
        ensures
            final(self).wf(),
            final(self).mirror@ == old(self).mirror@,
            final(self).pending@ == without_removed(old(self).pending@, event_views(events@)),
    {
        let ghost all = event_views(events@);
        for i in 0..events.len()
            invariant
                all == event_views(events@),
                self.wf(),
                self.mirror@ == old(self).mirror@,
                self.pending@ == without_removed(old(self).pending@, all.take(i as int)),
        {
            assert(all.take(i + 1).drop_last() =~= all.take(i as int));
            assert(all.take(i + 1).last() == events@[i as int]@);
            match &events[i] {
                SourceEvent::WindowRemoved(window) => {
                    self.pending.discard(*window);
                },
                _ => {},
            }
        }
        assert(all.take(events@.len() as int) =~= all);
    }
}

/// What is scheduled without the windows that events report as gone.
pub open spec fn without_removed(
    pending: Map<WindowId, Pending>,
    events: Seq<SourceEventView>,
) -> Map<WindowId, Pending>
    decreases events.len(),
{
    if events.len() == 0 {
        pending
    } else {
        let before = without_removed(pending, events.drop_last());
        match events.last() {
            SourceEventView::WindowRemoved(window) => before.remove(window),
            _ => before,
        }
    }
}

// ---------------------------------------------------------------- what signals do

/// A toplevel coming or going, and children changing at the root of the bus, call for the
/// windows to be discovered again; the mirror stays as it is, and nothing is scheduled.
pub proof fn law_toplevels_are_discovered_again(mirror: MirrorView, event: AtspiEvent)
    requires
        event is WindowCreated || event is WindowDestroyed || (event matches AtspiEvent::ChildrenChanged {
            sender,
            path,
        } && path@ == "/org/a11y/atspi/accessible/root"@),
    ensures
        reaction(mirror, event) == (mirror, ReactionView::Reconcile),
        to_note(mirror, event).len() == 0,
{
}

/// Only those signals call for a discovery.
pub proof fn law_nothing_else_is_a_lifecycle(mirror: MirrorView, event: AtspiEvent)
    ensures
        reaction(mirror, event).1 == ReactionView::Reconcile ==> event is WindowCreated
            || event is WindowDestroyed || (event matches AtspiEvent::ChildrenChanged {
            sender,
            path,
        } && path@ == "/org/a11y/atspi/accessible/root"@),
{
}

/// Children changing anywhere else schedule a walk of every window of the application, in
/// their order, and of no other; nothing is reported. No other signal schedules any.
pub proof fn law_deep_changes_schedule_walks(mirror: MirrorView, event: AtspiEvent)
    ensures
        event matches AtspiEvent::ChildrenChanged { sender, path } ==> (path@
            == "/org/a11y/atspi/accessible/root"@ || {
            &&& to_note(mirror, event) == mirror.windows.filter(
                |w: WindowView| w.root.0 == Some(sender@),
            ).map_values(|w: WindowView| w.id)
            &&& reaction(mirror, event) == (mirror, ReactionView::Report(Seq::empty()))
        }),
        !(event is ChildrenChanged) ==> to_note(mirror, event).len() == 0,
{
    match event {
        AtspiEvent::ChildrenChanged { sender, path } => {
            law_windows_belong_to_their_application(mirror.windows, sender@);
        },
        _ => {},
    }
}

/// An object that gains focus moves it to its node, in the first window that shows it. If
/// none does, the windows of its application are to be walked again, and focus stays.
pub proof fn law_gained_focus_moves_or_walks(
    mirror: MirrorView,
    sender: String,
    path: String,
    i: int,
)
    requires
        0 <= i < mirror.windows.len(),
    ensures
        ({
            let event = AtspiEvent::StateChanged {
                sender,
                path,
                state: State::Focused,
                enabled: true,
            };
            let (after, call) = reaction(mirror, event);
            let shows = |w: WindowView|
                w.root.0 == Some(sender@) && w.ids.contains_key(path@) && w.objects.contains_key(
                    w.ids[path@].0,
                );
            let first = shows(mirror.windows[i]) && forall|j: int|
                0 <= j < i ==> !shows(#[trigger] mirror.windows[j]);
            let window = mirror.windows[i];
            &&& first ==> {
                &&& after == focus_moved(mirror, window.id, window.ids[path@])
                &&& call == ReactionView::Report(
                    focus_events(mirror, window.id, window.ids[path@]),
                )
            }
            &&& (forall|j: int| 0 <= j < mirror.windows.len() ==> !shows(#[trigger] mirror.windows[j]))
                ==> after == mirror && call == ReactionView::Rewalk(
                mirror.windows.filter(|w: WindowView| w.root.0 == Some(sender@)).map_values(
                    |w: WindowView| w.id,
                ),
            )
        }),
{
    let shows = |w: WindowView|
        w.root.0 == Some(sender@) && w.ids.contains_key(path@) && w.objects.contains_key(
            w.ids[path@].0,
        );
    let fits = showing(sender@, path@);
    assert(fits =~= shows);
    law_windows_belong_to_their_application(mirror.windows, sender@);
    if shows(mirror.windows[i]) && forall|j: int| 0 <= j < i ==> !shows(#[trigger] mirror.windows[j]) {
        assert(first_match(mirror.windows, fits, i));
        lemma_found(mirror.windows, fits, i);
    }
    if forall|j: int| 0 <= j < mirror.windows.len() ==> !shows(#[trigger] mirror.windows[j]) {
        lemma_not_found(mirror.windows, fits);
    }
}

/// Focus lost, and any other state, changes nothing.
pub proof fn law_other_states_change_nothing(
    mirror: MirrorView,
    sender: String,
    path: String,
    state: State,
    enabled: bool,
)
    requires
        state != State::Focused || !enabled,
    ensures
        reaction(mirror, AtspiEvent::StateChanged { sender, path, state, enabled }) == (
            mirror,
            ReactionView::Report(Seq::empty()),
        ),
        reaction(mirror, AtspiEvent::Other) == (mirror, ReactionView::Report(Seq::empty())),
{
}

/// Focus among a container's descendants moves as any focus does, where the descendant is
/// shown. Where it is not, nothing happens.
pub proof fn law_a_shown_descendant_gains_focus(
    mirror: MirrorView,
    sender: String,
    descendant: String,
)
    ensures
        ({
            let (after, call) = reaction(
                mirror,
                AtspiEvent::ActiveDescendantChanged { sender, descendant },
            );
            let gained = reaction(
                mirror,
                AtspiEvent::StateChanged {
                    sender,
                    path: descendant,
                    state: State::Focused,
                    enabled: true,
                },
            );
            if gained.1 is Rewalk {
                after == mirror && call == ReactionView::Report(Seq::empty())
            } else {
                (after, call) == gained
            }
        }),
{
}

/// A text that a window has is read again when it changes, when its caret moves and when
/// its selection changes; its geometry only when it changes. A text that no window has is
/// passed over. None of these changes the mirror.
pub proof fn law_texts_are_read_again(mirror: MirrorView, item: ObjectName, i: int)
    requires
        0 <= i < mirror.windows.len() <= usize::MAX,
    ensures
        ({
            let (moved, changed, selected) = (
                reaction(mirror, AtspiEvent::CaretMoved(item)),
                reaction(mirror, AtspiEvent::TextChanged(item)),
                reaction(mirror, AtspiEvent::SelectionChanged(item)),
            );
            let has_text = |w: WindowView|
                item@.0 is Some && w.root.0 == item@.0 && w.cache.text.contains_key(item@.1);
            let first = has_text(mirror.windows[i]) && forall|j: int|
                0 <= j < i ==> !has_text(#[trigger] mirror.windows[j]);
            &&& moved.0 == mirror && changed.0 == mirror && selected == moved
            &&& first ==> {
                let target = TextTarget {
                    index: i as usize,
                    with_caret: mirror.windows[i].cache.text[item@.1].caret_enabled,
                };
                &&& moved.1 == ReactionView::ReadText { target, with_geometry: false }
                &&& changed.1 == ReactionView::ReadText { target, with_geometry: true }
            }
            &&& (forall|j: int|
                0 <= j < mirror.windows.len() ==> !has_text(#[trigger] mirror.windows[j]))
                ==> moved.1 == ReactionView::Report(Seq::empty()) && changed.1
                == ReactionView::Report(Seq::empty())
        }),
{
    let has_text = |w: WindowView|
        item@.0 is Some && w.root.0 == item@.0 && w.cache.text.contains_key(item@.1);
    match item@.0 {
        Some(sender) => {
            let fits = texting(sender, item@.1);
            assert(fits =~= has_text);
            if has_text(mirror.windows[i]) && forall|j: int|
                0 <= j < i ==> !has_text(#[trigger] mirror.windows[j]) {
                assert(first_match(mirror.windows, fits, i));
                lemma_found(mirror.windows, fits, i);
            }
            if forall|j: int| 0 <= j < mirror.windows.len() ==> !has_text(
                #[trigger] mirror.windows[j],
            ) {
                lemma_not_found(mirror.windows, fits);
            }
        },
        None => {},
    }
}

/// A toplevel that is activated or deactivated concerns the windows rooted in that very
/// object, in their order. The mirror does not change yet.
pub proof fn law_activation_concerns_its_own_windows(
    mirror: MirrorView,
    sender: String,
    path: String,
)
    ensures
        ({
            let targets = mirror.windows.filter(
                |w: WindowView| w.root.0 == Some(sender@) && w.root.1 == path@,
            ).map_values(|w: WindowView| w.id);
            &&& reaction(mirror, AtspiEvent::Activated { sender, path }) == (
                mirror,
                ReactionView::Activation { targets, activated: true },
            )
            &&& reaction(mirror, AtspiEvent::Deactivated { sender, path }) == (
                mirror,
                ReactionView::Activation { targets, activated: false },
            )
        }),
{
    let fits = rooted_at(sender@, path@);
    lemma_ids_where(mirror.windows, fits);
    assert(fits =~= (|w: WindowView| w.root.0 == Some(sender@) && w.root.1 == path@));
}

/// Each of the windows noted is due a quiet time after `now`, but no later than the
/// longest delay after the first note of a burst. No other window is touched.
pub proof fn law_noted_windows_are_due(
    pending: Map<WindowId, Pending>,
    quiet: u64,
    max_delay: u64,
    windows: Seq<WindowId>,
    now: u64,
    id: WindowId,
)
    ensures
        ({
            let after = noted_each(pending, quiet, max_delay, windows, now);
            let latest = if pending.contains_key(id) {
                pending[id].latest as int
            } else {
                now + max_delay
            };
            &&& windows.contains(id) ==> {
                &&& after.contains_key(id)
                &&& after[id].latest == latest
                &&& after[id].deadline == if now + quiet <= latest {
                    now + quiet
                } else {
                    latest
                }
            }
            &&& !windows.contains(id) ==> {
                &&& after.contains_key(id) == pending.contains_key(id)
                &&& pending.contains_key(id) ==> after[id] == pending[id]
            }
        }),
    decreases windows.len(),
{
    if windows.len() > 0 {
        let init = windows.drop_last();
        law_noted_windows_are_due(pending, quiet, max_delay, init, now, id);
        assert(windows[windows.len() - 1] == windows.last());
        if init.contains(id) {
            let k = init.index_of(id);
            assert(windows[k] == id);
        }
        if windows.contains(id) && id != windows.last() {
            let k = windows.index_of(id);
            assert(init[k] == id);
        }
    }
}

/// After windows gained focus the last of them has it; after windows lost it, none has it
/// if it was on one of them. Each change is reported, in its order, and only changes are.
pub proof fn law_focus_changes_are_reported(
    focus: Option<WindowId>,
    targets: Seq<WindowId>,
    k: int,
)
    ensures
        ({
            let (gained, news) = activation_events(focus, targets, true);
            let (left, losses) = activation_events(focus, targets, false);
            let held = focus is Some && targets.contains(focus->0);
            &&& gained == if targets.len() > 0 {
                Some(targets.last())
            } else {
                focus
            }
            &&& news.len() <= targets.len()
            &&& news.len() > 0 ==> news.last() == SourceEventView::FocusChanged(gained)
            &&& 0 <= k < targets.len() && (if k == 0 {
                focus
            } else {
                Some(targets[k - 1])
            }) != Some(targets[k]) ==> news.contains(
                SourceEventView::FocusChanged(Some(targets[k])),
            )
            &&& news.len() == 0 ==> gained == focus
            &&& (forall|j: int| 0 <= j < targets.len() ==> Some(#[trigger] targets[j]) == focus)
                ==> news.len() == 0
            &&& held ==> left is None && losses == seq![SourceEventView::FocusChanged(None)]
            &&& !held ==> left == focus && losses.len() == 0
        }),
    decreases targets.len(),
{
    if targets.len() > 0 {
        let init = targets.drop_last();
        let n = targets.len() - 1;
        law_focus_changes_are_reported(focus, init, k);
        let (before, events) = activation_events(focus, init, true);
        let (gained, news) = activation_events(focus, targets, true);
        assert(targets[n] == targets.last());
        assert forall|e: SourceEventView| events.contains(e) implies news.contains(e) by {
            let j = events.index_of(e);
            assert(news[j] == e);
        }
        if n > 0 {
            assert(init.last() == targets[n - 1]);
        }
        if before != Some(targets[n]) {
            assert(news[events.len() as int] == SourceEventView::FocusChanged(Some(targets[n])));
        }
        if 0 <= k < n {
            assert(init[k] == targets[k]);
            if k > 0 {
                assert(init[k - 1] == targets[k - 1]);
            }
        }
        if forall|j: int| 0 <= j < targets.len() ==> Some(#[trigger] targets[j]) == focus {
            assert forall|j: int| 0 <= j < init.len() implies Some(#[trigger] init[j]) == focus by {
                assert(init[j] == targets[j]);
            }
        }
        if focus is Some {
            if init.contains(focus->0) {
                let j = init.index_of(focus->0);
                assert(targets[j] == focus->0);
            }
            if targets.contains(focus->0) && targets[n] != focus->0 {
                let j = targets.index_of(focus->0);
                assert(init[j] == focus->0);
            }
        }
    }
}

/// What is scheduled loses the windows that are reported as gone, and keeps all others.
pub proof fn law_only_removed_windows_are_unscheduled(
    pending: Map<WindowId, Pending>,
    events: Seq<SourceEventView>,
    id: WindowId,
)
    ensures
        ({
            let after = without_removed(pending, events);
            &&& after.contains_key(id) <==> pending.contains_key(id) && !events.contains(
                SourceEventView::WindowRemoved(id),
            )
            &&& after.contains_key(id) ==> after[id] == pending[id]
        }),
    decreases events.len(),
{
    if events.len() > 0 {
        let init = events.drop_last();
        let gone = SourceEventView::WindowRemoved(id);
        law_only_removed_windows_are_unscheduled(pending, init, id);
        assert(events[events.len() - 1] == events.last());
        if init.contains(gone) {
            let k = init.index_of(gone);
            assert(events[k] == gone);
        }
        if events.contains(gone) && events.last() != gone {
            let k = events.index_of(gone);
            assert(init[k] == gone);
        }
    }
}

/// A window in which something deep changed is walked a quarter of a second later, and
/// however long its changes go on, two seconds after the first of them.
pub proof fn law_a_burst_is_walked_in_time(
    pending: Map<WindowId, Pending>,
    windows: Seq<WindowId>,
    now: u64,
    id: WindowId,
)
    requires
        windows.contains(id),
    ensures
        ({
            let after = noted_each(
                pending,
                REWALK_DEBOUNCE_QUIET,
                REWALK_DEBOUNCE_MAX_DELAY,
                windows,
                now,
            );
            &&& after.contains_key(id)
            &&& !pending.contains_key(id) ==> after[id].deadline == now + 250 && after[id].latest
                == now + 2000
            &&& pending.contains_key(id) ==> after[id].latest == pending[id].latest
                && after[id].deadline <= pending[id].latest && after[id].deadline <= now + 250
        }),
{
    law_noted_windows_are_due(
        pending,
        REWALK_DEBOUNCE_QUIET,
        REWALK_DEBOUNCE_MAX_DELAY,
        windows,
        now,
        id,
    );
}

} // verus!
