//! The accessibility source: routing, planning, differences, and the state of the
//! desktop.

use accesskit_remote::ax::actions;
use accesskit_remote::ax::attr::AxError;
use accesskit_remote::ax::attr::Status;
use accesskit_remote::ax::delta::EmittedTree;
use accesskit_remote::ax::delta::WireUpdate;
use accesskit_remote::ax::discovery::application;
use accesskit_remote::ax::discovery::window_id;
use accesskit_remote::ax::discovery::windows_of;
use accesskit_remote::ax::discovery::AppReads;
use accesskit_remote::ax::discovery::Window;
use accesskit_remote::ax::discovery::WindowReads;
use accesskit_remote::ax::drive::plan_action;
use accesskit_remote::ax::drive::ActionContext;
use accesskit_remote::ax::drive::AxCall;
use accesskit_remote::ax::drive::Settable;
use accesskit_remote::ax::drive::SteppedValue;
use accesskit_remote::ax::element::ElementKey;
use accesskit_remote::ax::limiter::NodeRefreshLimiter;
use accesskit_remote::ax::limiter::REFRESH_MAX_DELAY;
use accesskit_remote::ax::limiter::REFRESH_MIN_INTERVAL;
use accesskit_remote::ax::names::Names;
use accesskit_remote::ax::node::AxNode;
use accesskit_remote::ax::node::NodeStates;
use accesskit_remote::ax::observe::route;
use accesskit_remote::ax::observe::subscriptions;
use accesskit_remote::ax::observe::Route;
use accesskit_remote::ax::opt_in::answers_opt_in;
use accesskit_remote::ax::opt_in::request;
use accesskit_remote::ax::opt_in::OptIn;
use accesskit_remote::ax::reconcile::ReconcileClock;
use accesskit_remote::ax::reconcile::WalkedWindow;
use accesskit_remote::ax::source::Desktop;
use accesskit_remote::ax::source::Routed;
use accesskit_remote::ax::source::RECONCILE_INTERVAL;
use accesskit_remote::ax::source::REWALK_QUIET;
use accesskit_remote::ax::source::SETTLE_AFTER_ACTION;
use accesskit_remote::ax::trust::untrusted_message;
use accesskit_remote::messages::AppInfo;
use accesskit_remote::messages::WindowId;
use accesskit_remote::number::Float64;
use accesskit_remote::tree::Action;
use accesskit_remote::tree::ActionData;
use accesskit_remote::tree::NodeId;
use accesskit_remote::tree::Role;
use accesskit_remote::tree::TreeUpdate;

// ---------------------------------------------------------------- notifications

#[test]
fn every_subscription_has_a_real_route() {
    for (name, expected) in subscriptions() {
        assert!(name.starts_with("AX"), "{name} is not an AX notification");
        assert_ne!(expected, Route::Ignore, "{name} subscribes but routes nowhere");
        assert_eq!(route(name), expected);
    }
}

#[test]
fn an_unsubscribed_notification_is_ignored() {
    // Applications deliver notifications nobody asked for; each must cost
    // one comparison and nothing else.
    assert_eq!(route("AXMoved"), Route::Ignore);
    assert_eq!(route("AXResized"), Route::Ignore);
    assert_eq!(route("AXSomethingInvented"), Route::Ignore);
}

/// Geometry churn must not reach the mirror. `AXMoved`/`AXResized` fire on
/// every drag and scroll; bounds ride the re-walk instead. The AT-SPI
/// source excludes `BoundsChanged` for the same reason.
#[test]
fn geometry_notifications_are_not_subscribed() {
    for noisy in ["AXMoved", "AXResized", "AXWindowMoved", "AXWindowResized"] {
        assert!(
            !subscriptions().iter().any(|(name, _)| *name == noisy),
            "{noisy} would fire on every drag"
        );
    }
}

#[test]
fn structure_and_semantics_stay_separate() {
    // The routing split is the design's core claim; these are the cases
    // that would quietly collapse it.
    assert_eq!(route("AXLayoutChanged"), Route::Rewalk);
    assert_eq!(route("AXRowCountChanged"), Route::Rewalk, "rows change shape");
    assert_eq!(route("AXValueChanged"), Route::Refresh, "a value does not");
    assert_eq!(route("AXTitleChanged"), Route::Refresh);
    assert_eq!(route("AXFocusedUIElementChanged"), Route::Focus);
    assert_eq!(route("AXWindowCreated"), Route::Lifecycle);
}

#[test]
fn no_notification_is_listed_twice() {
    let table = subscriptions();
    let mut names: Vec<&str> = table.iter().map(|(name, _)| *name).collect();
    let count = names.len();
    names.sort_unstable();
    names.dedup();
    assert_eq!(names.len(), count, "a duplicate registration costs an extra IPC call");
}

// ---------------------------------------------------------------- permissions

#[test]
fn the_request_writes_exactly_one_attribute() {
    // The decision not to set `AXEnhancedUserInterface` is enforced
    // structurally rather than by inspection: `request` writes the one
    // name it is given, and `Names` carries no other opt-in string, so
    // adding the damaging lever would take a deliberate new field.
    let names = Names::new();
    assert_eq!(names.manual_accessibility.to_string(), "AXManualAccessibility");
}

#[test]
fn a_request_is_told_apart_by_its_outcome() {
    assert_eq!(request(Status::Success), OptIn::Accepted);
    assert_eq!(request(Status::AttributeUnsupported), OptIn::NotApplicable);
    assert_eq!(request(Status::IllegalArgument), OptIn::NotApplicable);
    let failed = AxError(Status::CannotComplete);
    assert_eq!(request(Status::CannotComplete), OptIn::Failed(failed));
    assert_eq!(answers_opt_in(Ok(Some(false))), Some(false));
    assert_eq!(answers_opt_in(Ok(None)), None);
    assert_eq!(answers_opt_in(Err(failed)), None);
}

/// The remedy differs by situation, and pointing someone at the wrong one
/// costs them a reboot's worth of confusion — so each branch is pinned.
#[test]
fn the_untrusted_message_matches_the_situation() {
    for is_ssh in [false, true] {
        let message = untrusted_message(is_ssh, Some("/bin/mirror"));
        assert!(message.contains("Accessibility"), "{message}");
        if is_ssh {
            assert!(
                message.contains("sshd"),
                "over SSH, granting the binary does nothing; the message must say so: {message}"
            );
        } else {
            assert!(
                message.contains("rebuild"),
                "a grant silently lost on rebuild is the papercut worth warning about: {message}"
            );
        }
    }
}

#[test]
fn the_untrusted_message_names_the_program() {
    let known = untrusted_message(false, Some("/bin/mirror"));
    assert!(known.starts_with("no Accessibility permission: add /bin/mirror under System "));
    let unknown = untrusted_message(false, None);
    assert!(unknown.starts_with("no Accessibility permission: add this binary under System "));
}

// ---------------------------------------------------------------- discovery

fn app_reads(pid: i32) -> AppReads {
    AppReads {
        pid,
        regular: true,
        bounded: true,
        name: Some("Finder".into()),
        bundle_id: Some("com.apple.finder".into()),
        active: true,
    }
}

#[test]
fn only_addressable_regular_applications_are_read() {
    let app = application(app_reads(7)).unwrap();
    assert_eq!(app.info.pid, Some(7));
    assert_eq!(app.info.app_id.as_deref(), Some("com.apple.finder"));
    assert_eq!(app.info.name, "Finder");
    assert!(application(app_reads(0)).is_none());
    assert!(application(AppReads { regular: false, ..app_reads(7) }).is_none());
    assert!(application(AppReads { bounded: false, ..app_reads(7) }).is_none());
    let bare = AppReads { name: None, bundle_id: Some(String::new()), ..app_reads(7) };
    let bare = application(bare).unwrap();
    assert_eq!(bare.info.name, "");
    assert_eq!(bare.info.app_id, None, "an empty bundle id is none");
}

fn window_reads(n: u64, role: &str) -> WindowReads {
    WindowReads {
        key: ElementKey::new(7, n),
        role: Some(role.into()),
        title: None,
        subrole: None,
        native_window_id: window_id(Status::Success, 12),
    }
}

#[test]
fn windows_are_filtered_and_the_focused_one_is_marked() {
    let app = application(app_reads(7)).unwrap();
    let focused = Some(ElementKey::new(7, 3));
    let reads = || {
        vec![
            window_reads(1, "AXWindow"),
            window_reads(2, "AXScrollArea"),
            window_reads(3, "AXWindow"),
        ]
    };
    let windows = windows_of(&app, focused, reads());
    let seen: Vec<(u64, bool)> = windows.iter().map(|w| (w.key.element(), w.active)).collect();
    assert_eq!(seen, vec![(1, false), (3, true)]);
    assert_eq!(windows[0].title, "", "a window without a title is a window");
    assert_eq!(windows[0].native_window_id, Some(12));
    let behind = application(AppReads { active: false, ..app_reads(7) }).unwrap();
    assert!(windows_of(&behind, focused, reads()).iter().all(|w| !w.active));
}

#[test]
fn a_zero_window_id_is_no_window_id() {
    assert_eq!(window_id(Status::Success, 9), Some(9));
    assert_eq!(window_id(Status::Success, 0), None);
    assert_eq!(window_id(Status::Failure, 9), None);
}

// ---------------------------------------------------------------- actions

fn ctx(role: Role, actions: &[&str], settable: &[Settable]) -> ActionContext {
    ActionContext {
        role,
        actions: actions.iter().map(|a| (*a).to_owned()).collect(),
        settable: settable.to_vec(),
        value: None,
    }
}

fn float(number: f64) -> Float64 {
    Float64(number.to_bits())
}

#[test]
fn a_click_presses_when_the_element_offers_it() {
    let target = ctx(Role::Button, &[actions::PRESS], &[]);
    assert_eq!(
        plan_action(&target, Action::Click, None),
        vec![AxCall::Perform(actions::PRESS)]
    );
}

#[test]
fn a_menu_item_is_picked_and_a_row_is_selected() {
    // Menu items answer AXPick rather than AXPress.
    let item = ctx(Role::MenuItem, &[actions::PICK], &[]);
    assert_eq!(
        plan_action(&item, Action::Click, None),
        vec![AxCall::Perform(actions::PICK)]
    );
    // A table row often offers no action at all; selecting it is the only
    // route, and it exists only because settability said so.
    let row = ctx(Role::Row, &[], &[Settable::Selected]);
    assert_eq!(
        plan_action(&row, Action::Click, None),
        vec![AxCall::SetSelected(true)]
    );
}

/// The macOS advantage over AT-SPI: a call that cannot work is never
/// planned, rather than attempted and refused a round trip later.
#[test]
fn nothing_is_planned_that_the_element_cannot_do() {
    let inert = ctx(Role::Label, &[], &[]);
    assert!(plan_action(&inert, Action::Click, None).is_empty());
    assert!(plan_action(&inert, Action::Focus, None).is_empty());
    assert!(plan_action(&inert, Action::Increment, None).is_empty());
    assert!(plan_action(&inert, Action::Expand, None).is_empty());
    assert!(
        plan_action(&inert, Action::SetValue, Some(&ActionData::Value("x".into()))).is_empty(),
        "an unwritable value must not be attempted"
    );
}

#[test]
fn focus_is_planned_only_where_it_can_be_written() {
    assert!(plan_action(&ctx(Role::Button, &[], &[]), Action::Focus, None).is_empty());
    assert_eq!(
        plan_action(&ctx(Role::Button, &[], &[Settable::Focused]), Action::Focus, None),
        vec![AxCall::Focus]
    );
    // A window is raised rather than focused by attribute.
    assert_eq!(
        plan_action(&ctx(Role::Window, &[actions::RAISE], &[]), Action::Focus, None),
        vec![AxCall::Perform(actions::RAISE)]
    );
}

#[test]
fn a_step_prefers_the_elements_own_action() {
    let slider = ctx(Role::Slider, &[actions::INCREMENT, actions::DECREMENT], &[]);
    assert_eq!(
        plan_action(&slider, Action::Increment, None),
        vec![AxCall::Perform(actions::INCREMENT)]
    );
    assert_eq!(
        plan_action(&slider, Action::Decrement, None),
        vec![AxCall::Perform(actions::DECREMENT)]
    );
}

#[test]
fn a_step_falls_back_to_writing_a_synthesised_value() {
    // AX exposes no step size, so a slider with no increment action can
    // still be moved — but only if its value is writable.
    let mut slider = ctx(Role::Slider, &[], &[Settable::Value]);
    slider.value = Some(SteppedValue {
        current: float(0.5),
        up: float(0.5 + 1.0 * 0.01),
        down: float(0.5 + -1.0 * 0.01),
    });
    assert_eq!(
        plan_action(&slider, Action::Increment, None),
        vec![AxCall::SetNumberValue(float(0.51))]
    );
    assert_eq!(
        plan_action(&slider, Action::Decrement, None),
        vec![AxCall::SetNumberValue(float(0.49))]
    );

    slider.settable.clear();
    assert!(
        plan_action(&slider, Action::Increment, None).is_empty(),
        "an unwritable slider with no increment action cannot be moved"
    );
}

#[test]
fn set_value_distinguishes_text_from_numbers() {
    let field = ctx(Role::TextInput, &[], &[Settable::Value]);
    assert_eq!(
        plan_action(&field, Action::SetValue, Some(&ActionData::Value("hello".into()))),
        vec![AxCall::SetStringValue("hello".into())]
    );
    let slider = ctx(Role::Slider, &[], &[Settable::Value]);
    assert_eq!(
        plan_action(&slider, Action::SetValue, Some(&ActionData::NumericValue(float(0.25)))),
        vec![AxCall::SetNumberValue(float(0.25))]
    );
}

#[test]
fn a_non_finite_value_is_refused() {
    // NaN through the wire must not become a write.
    let slider = ctx(Role::Slider, &[], &[Settable::Value]);
    let nan = ActionData::NumericValue(float(f64::NAN));
    assert!(plan_action(&slider, Action::SetValue, Some(&nan)).is_empty());
}

#[test]
fn a_step_to_a_number_that_is_not_finite_is_refused() {
    let mut slider = ctx(Role::Slider, &[], &[Settable::Value]);
    slider.value = Some(SteppedValue {
        current: float(f64::MAX),
        up: float(f64::INFINITY),
        down: float(0.5),
    });
    assert!(plan_action(&slider, Action::Increment, None).is_empty());
    assert_eq!(
        plan_action(&slider, Action::Decrement, None),
        vec![AxCall::SetNumberValue(float(0.5))]
    );
    slider.value = Some(SteppedValue {
        current: float(0.5),
        up: float(0.75),
        down: float(f64::NEG_INFINITY),
    });
    assert!(plan_action(&slider, Action::Decrement, None).is_empty());
    assert_eq!(
        plan_action(&slider, Action::Increment, None),
        vec![AxCall::SetNumberValue(float(0.75))]
    );
}

#[test]
fn expand_shows_a_menu_and_collapse_cancels_it() {
    let menu_button = ctx(Role::Button, &[actions::SHOW_MENU, actions::PRESS], &[]);
    assert_eq!(
        plan_action(&menu_button, Action::Expand, None),
        vec![
            AxCall::Perform(actions::SHOW_MENU),
            AxCall::Perform(actions::PRESS)
        ],
        "the specific route is tried before the generic one"
    );
    let open_menu = ctx(Role::Menu, &[actions::CANCEL], &[]);
    assert_eq!(
        plan_action(&open_menu, Action::Collapse, None),
        vec![AxCall::Perform(actions::CANCEL)]
    );
}

// ---------------------------------------------------------------- differences

fn update(nodes: Vec<(NodeId, accesskit::Node)>, focus: NodeId) -> WireUpdate {
    WireUpdate {
        nodes,
        tree: Some(accesskit::Tree::new(accesskit::NodeId(0))),
        tree_id: accesskit::TreeId::ROOT,
        focus,
    }
}

fn labelled(role: accesskit::Role, label: &str) -> accesskit::Node {
    let mut node = accesskit::Node::new(role);
    node.set_label(label);
    node
}

fn tree(label: &str) -> WireUpdate {
    update(
        vec![
            (NodeId(0), {
                let mut root = accesskit::Node::new(accesskit::Role::Window);
                root.set_children(vec![accesskit::NodeId(1)]);
                root
            }),
            (NodeId(1), labelled(accesskit::Role::Button, label)),
        ],
        NodeId(0),
    )
}

#[test]
fn the_first_walk_is_sent_whole_with_its_tree() {
    let mut emitted = EmittedTree::new();
    let first = emitted.reduce(tree("Save")).expect("the first walk is always sent");
    assert_eq!(first.nodes.len(), 2);
    assert!(first.tree.is_some(), "the consumer needs the root to seat the window");
    assert_eq!(emitted.len(), 2);
}

/// **The invariant this module exists for.** An idle desktop was emitting
/// 800 nodes in 8 seconds before this: one flickering node dragged its
/// whole 133-node tree onto the wire every time.
#[test]
fn an_unchanged_re_walk_sends_nothing() {
    let mut emitted = EmittedTree::new();
    emitted.reduce(tree("Save")).unwrap();
    assert!(emitted.reduce(tree("Save")).is_none());
    assert!(emitted.reduce(tree("Save")).is_none(), "and stays quiet");
}

#[test]
fn only_the_changed_node_is_sent() {
    let mut emitted = EmittedTree::new();
    emitted.reduce(tree("Save")).unwrap();
    let delta = emitted.reduce(tree("Saved")).expect("a changed label is a change");
    assert_eq!(delta.nodes.len(), 1, "the untouched root must not ride along");
    assert_eq!(delta.nodes[0].0, NodeId(1));
    assert!(delta.tree.is_none(), "a delta must not re-seat the window");
}

#[test]
fn a_focus_move_alone_is_worth_sending() {
    // Focus lives on the update rather than on any node, so it would
    // otherwise be lost whenever no node changed.
    let mut emitted = EmittedTree::new();
    emitted.reduce(tree("Save")).unwrap();
    let delta = emitted
        .reduce(update(tree("Save").nodes, NodeId(1)))
        .expect("focus moved");
    assert!(delta.nodes.is_empty(), "no node changed, so none is sent");
    assert_eq!(delta.focus, NodeId(1));
    // And it settles again.
    assert!(emitted.reduce(update(tree("Save").nodes, NodeId(1))).is_none());
}

#[test]
fn a_new_node_is_sent_and_a_vanished_one_is_forgotten() {
    let mut emitted = EmittedTree::new();
    emitted.reduce(tree("Save")).unwrap();

    let mut grown = tree("Save");
    grown.nodes.push((NodeId(2), labelled(accesskit::Role::Button, "Cancel")));
    let delta = emitted.reduce(grown).expect("a new node is a change");
    assert_eq!(delta.nodes.len(), 1);
    assert_eq!(delta.nodes[0].0, NodeId(2));
    assert_eq!(emitted.len(), 3);

    // The node goes away: nothing is sent for it — it leaves its parent's
    // child list and the client prunes it — but the cache must forget it,
    // or its return would be suppressed against a stale entry.
    assert!(emitted.reduce(tree("Save")).is_none());
    assert_eq!(emitted.len(), 2);

    let mut again = tree("Save");
    again.nodes.push((NodeId(2), labelled(accesskit::Role::Button, "Cancel")));
    let delta = emitted.reduce(again).expect("the returning node is sent again");
    assert_eq!(delta.nodes[0].0, NodeId(2));
}

#[test]
fn a_single_node_refresh_reports_only_real_changes() {
    let mut emitted = EmittedTree::new();
    emitted.reduce(tree("Save")).unwrap();
    assert!(
        !emitted.reduce_node(NodeId(1), &labelled(accesskit::Role::Button, "Save")),
        "an unchanged re-read is not worth sending"
    );
    assert!(emitted.reduce_node(NodeId(1), &labelled(accesskit::Role::Button, "Saved")));
    assert!(
        !emitted.reduce_node(NodeId(1), &labelled(accesskit::Role::Button, "Saved")),
        "and settles once sent"
    );
}

/// A single-node refresh must not disturb the cache's view of the rest of
/// the window. If it pruned, the next re-walk would find nothing cached
/// and resend every node — precisely the traffic this module removes.
#[test]
fn a_single_node_refresh_leaves_the_rest_of_the_cache_intact() {
    let mut emitted = EmittedTree::new();
    emitted.reduce(tree("Save")).unwrap();
    assert_eq!(emitted.len(), 2);
    emitted.reduce_node(NodeId(1), &labelled(accesskit::Role::Button, "Saved"));
    assert_eq!(emitted.len(), 2, "the root is still known");
    // The following re-walk sees only the one genuine difference.
    let delta = emitted.reduce(tree("Save")).expect("the label reverted");
    assert_eq!(delta.nodes.len(), 1);
}

#[test]
fn a_node_reverting_to_its_previous_value_is_sent() {
    // 133 <-> 134 oscillation observed live: the tree must not get stuck
    // believing a node still holds a value it has since changed away from
    // and back to.
    let mut emitted = EmittedTree::new();
    emitted.reduce(tree("Save")).unwrap();
    assert!(emitted.reduce(tree("Saved")).is_some());
    assert!(emitted.reduce(tree("Save")).is_some(), "reverting is also a change");
    assert!(emitted.reduce(tree("Save")).is_none());
}

#[test]
fn a_node_that_cannot_be_serialized_is_sent_every_time() {
    let mut emitted = EmittedTree::new();
    let codes = || vec![Some(b"root".to_vec()), None];
    assert!(emitted.reduce_encoded(tree("Save"), codes()).is_some());
    let again = emitted.reduce_encoded(tree("Save"), codes()).unwrap();
    assert_eq!(again.nodes.len(), 1);
    assert_eq!(again.nodes[0].0, NodeId(1));
    assert!(emitted.holds(NodeId(0)) && !emitted.holds(NodeId(1)));
    assert!(emitted.reduce_encoded_node(NodeId(0), None));
    assert!(!emitted.reduce_encoded_node(NodeId(0), Some(b"root".to_vec())));
    assert!(emitted.is_announced() && !emitted.is_empty());
    assert_eq!(emitted.focus(), Some(NodeId(0)));
    assert!(!EmittedTree::default().is_announced());
}

// ---------------------------------------------------------------- the desktop

fn key(pid: i32, n: u64) -> ElementKey {
    ElementKey::new(pid, n)
}

fn ax_node(key: ElementKey, role: &str, title: &str, children: Vec<ElementKey>) -> AxNode {
    AxNode {
        key,
        role: role.to_owned(),
        subrole: None,
        title: title.to_owned(),
        description: String::new(),
        value: None,
        states: NodeStates::default(),
        actions: Vec::new(),
        children,
        selected_range: None,
        name_from_contents: None,
        wraps: Vec::new(),
    }
}

/// A window of a process: element 1, with a button as element 2.
fn walk(pid: i32, label: &str) -> Vec<AxNode> {
    vec![
        ax_node(key(pid, 1), "AXWindow", "w", vec![key(pid, 2)]),
        ax_node(key(pid, 2), "AXButton", label, vec![]),
    ]
}

fn discovered(pid: i32, active: bool) -> Window {
    Window {
        key: key(pid, 1),
        title: format!("window of {pid}"),
        subrole: None,
        app: AppInfo::default(),
        native_window_id: Some(pid as u64),
        active,
    }
}

/// A window's update made ready for the wire, with labels only.
fn wire(update: &TreeUpdate) -> WireUpdate {
    let nodes = update
        .nodes
        .iter()
        .map(|(id, node)| {
            let label = node.label.as_deref().unwrap_or("");
            (*id, labelled(accesskit::Role::Button, label))
        })
        .collect();
    WireUpdate {
        nodes,
        tree: update.tree.as_ref().map(|tree| accesskit::Tree::new(accesskit::NodeId(tree.root.0))),
        tree_id: accesskit::TreeId::ROOT,
        focus: update.focus,
    }
}

/// A desktop of two applications, the second of which is active.
fn desktop() -> Desktop {
    let mut desktop = Desktop::new();
    let (snapshot, focus) = desktop.enumerate(vec![
        WalkedWindow { window: discovered(10, false), nodes: walk(10, "Save") },
        WalkedWindow { window: discovered(20, true), nodes: walk(20, "Open") },
        WalkedWindow { window: discovered(30, true), nodes: Vec::new() },
    ]);
    let ids: Vec<u64> = snapshot.iter().map(|(d, _)| d.id.0).collect();
    assert_eq!(ids, vec![1, 2], "a window that walks empty is not announced");
    assert_eq!(snapshot[0].0.title, "window of 10");
    assert_eq!(snapshot[0].0.native_window_id, Some(10));
    assert_eq!(focus, Some(WindowId(2)));
    for (descriptor, tree) in &snapshot {
        let sent = desktop.emit_walk(descriptor.id, wire(tree)).unwrap();
        assert!(sent.tree.is_some() && sent.nodes.len() == 2);
    }
    desktop
}

#[test]
fn the_first_window_has_focus_when_none_is_active() {
    let mut desktop = Desktop::new();
    let (_, focus) = desktop.enumerate(vec![
        WalkedWindow { window: discovered(10, false), nodes: walk(10, "a") },
        WalkedWindow { window: discovered(20, false), nodes: walk(20, "b") },
    ]);
    assert_eq!(focus, Some(WindowId(1)));
    assert_eq!(Desktop::new().enumerate(Vec::new()).1, None);
}

#[test]
fn notifications_refresh_rewalk_or_focus() {
    let mut desktop = desktop();
    let at = |pid, n| key(pid, n);
    assert_eq!(
        desktop.route_notification("AXValueChanged", at(20, 2), 0),
        Routed::Refresh(1)
    );
    assert_eq!(desktop.pending.next_deadline(), None, "one node is read again, no window");

    assert_eq!(desktop.route_notification("AXMoved", at(20, 2), 0), Routed::Done);
    assert_eq!(desktop.pending.next_deadline(), None);

    assert_eq!(desktop.route_notification("AXValueChanged", at(10, 77), 5), Routed::Done);
    assert_eq!(desktop.take_due(5 + REWALK_QUIET), vec![WindowId(1)], "it may be new");

    assert_eq!(
        desktop.route_notification("AXFocusedUIElementChanged", at(10, 2), 9),
        Routed::FocusChanged(Some(WindowId(1)))
    );
    assert_eq!(
        desktop.route_notification("AXFocusedWindowChanged", at(10, 99), 9),
        Routed::Done,
        "the process has focus already"
    );
    assert_eq!(desktop.take_due(9 + REWALK_QUIET), vec![WindowId(1)]);

    assert_eq!(desktop.route_notification("AXLayoutChanged", at(20, 99), 10), Routed::Done);
    assert_eq!(desktop.take_due(10 + REWALK_QUIET), vec![WindowId(2)]);
}

#[test]
fn a_refresh_keeps_the_children_that_the_consumer_holds() {
    let mut desktop = desktop();
    let fresh = ax_node(key(10, 1), "AXWindow", "renamed", vec![key(10, 2), key(10, 3)]);
    let (id, node) = desktop.refreshed(0, key(10, 1), &fresh).unwrap();
    let button = desktop.windows[0].ids.get(key(10, 2)).unwrap();
    assert_eq!(node.children, vec![button], "the shape stays as it was emitted");
    assert!(desktop.refreshed(0, key(20, 2), &fresh).is_none());

    let renamed = labelled(accesskit::Role::Button, "renamed");
    let root = accesskit::TreeId::ROOT;
    let sent = desktop.emit_refresh(0, id, renamed.clone(), root).unwrap();
    assert_eq!(sent.nodes.len(), 1);
    assert!(sent.tree.is_none());
    assert_eq!(sent.focus, id, "focus is restated as the consumer believes it");
    assert!(desktop.emit_refresh(0, id, renamed, root).is_none());
}

#[test]
fn a_rewalk_is_reduced_to_its_difference() {
    let mut desktop = desktop();
    let same = desktop.rewalk(WindowId(1), &walk(10, "Save"), 0).unwrap();
    assert!(desktop.emit_walk(WindowId(1), wire(&same)).is_none());
    let changed = desktop.rewalk(WindowId(1), &walk(10, "Saved"), 0).unwrap();
    let delta = desktop.emit_walk(WindowId(1), wire(&changed)).unwrap();
    assert_eq!(delta.nodes.len(), 1);
    assert!(desktop.rewalk(WindowId(1), &[], 0).is_none(), "an empty walk says nothing");
    assert!(desktop.rewalk(WindowId(9), &walk(10, "Save"), 0).is_none());
}

#[test]
fn a_window_is_watched_for_a_while_after_an_action() {
    let mut desktop = desktop();
    let button = desktop.windows[1].ids.get(key(20, 2)).unwrap();
    assert_eq!(desktop.action_target(WindowId(2), button), Some(key(20, 2)));
    assert_eq!(desktop.action_target(WindowId(2), NodeId(50)), None);
    assert_eq!(desktop.action_target(WindowId(9), button), None);

    desktop.acted(WindowId(2), 1000);
    assert_eq!(desktop.take_due(1000 + REWALK_QUIET), vec![WindowId(2)]);
    desktop.rewalk(WindowId(2), &walk(20, "Open"), 1250);
    assert_eq!(desktop.take_due(1250 + REWALK_QUIET), vec![WindowId(2)], "still settling");
    let late = 1000 + SETTLE_AFTER_ACTION;
    desktop.rewalk(WindowId(2), &walk(20, "Open"), late);
    assert_eq!(desktop.take_due(late + 10_000), Vec::<WindowId>::new());
    assert_eq!(desktop.windows[1].settle_until, None);
}

#[test]
fn reconciling_retires_what_is_gone_and_finds_what_is_new() {
    let mut desktop = desktop();
    let change = desktop.reconcile(&[discovered(10, true), discovered(30, true)], 0);
    assert_eq!(change.removed, vec![WindowId(2)]);
    assert_eq!(change.added, vec![1]);
    assert_eq!(desktop.focus.current(), None, "no focus on a window that is gone");
    assert_eq!(desktop.take_due(REWALK_QUIET), vec![WindowId(1)], "the active one is kept fresh");

    assert!(desktop.add_window(discovered(30, true), &[]).is_none(), "not ready yet");
    let (descriptor, tree) = desktop.add_window(discovered(30, true), &walk(30, "New")).unwrap();
    assert_eq!(descriptor.id, WindowId(3));
    assert_eq!(tree.nodes.len(), 2);
    assert_eq!(desktop.focus_window(descriptor.id), Some(Some(WindowId(3))));
    assert_eq!(desktop.focus_window(descriptor.id), None);
    assert_eq!(desktop.focus_window(WindowId(2)), None, "it is gone");

    let again = desktop.reconcile(&[discovered(10, false), discovered(30, false)], 0);
    assert!(again.removed.is_empty() && again.added.is_empty());
}

#[test]
fn processes_are_listened_to_until_they_quit() {
    let mut desktop = Desktop::new();
    assert!(!desktop.is_observed(10));
    desktop.observe(10);
    desktop.observe(20);
    assert!(desktop.is_observed(10));
    desktop.keep_observed(&[20, 30]);
    assert!(!desktop.is_observed(10) && desktop.is_observed(20) && !desktop.is_observed(30));
}

#[test]
fn windows_are_discovered_again_at_intervals() {
    let mut clock = ReconcileClock::new(100);
    assert!(!clock.tick(100 + RECONCILE_INTERVAL - 1));
    assert!(clock.tick(100 + RECONCILE_INTERVAL));
    assert!(!clock.tick(100 + RECONCILE_INTERVAL));
}

#[test]
fn refreshes_come_at_once_and_then_once_more() {
    let mut limiter = NodeRefreshLimiter::new(REFRESH_MIN_INTERVAL, REFRESH_MAX_DELAY);
    let (window, node) = (WindowId(1), key(10, 2));
    assert!(limiter.note(window, node, 1000), "the first change passes");
    assert!(!limiter.note(window, node, 1010));
    assert!(!limiter.note(window, node, 1050));
    assert!(limiter.take_due(1149).is_empty());
    assert_eq!(limiter.take_due(1150), vec![(window, node)], "the rest collapses into one");
    assert!(limiter.take_due(2000).is_empty());
    assert!(limiter.note(window, node, 3000));
    for t in (3010..3500).step_by(20) {
        assert!(!limiter.note(window, node, t));
    }
    assert_eq!(limiter.take_due(3510), vec![(window, node)], "it is not put off forever");
    assert!(!limiter.note(window, node, 3520));
    limiter.discard(window);
    assert!(limiter.take_due(9000).is_empty());
}
