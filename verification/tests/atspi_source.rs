//! The state of the AT-SPI mirror: resolving, focusing, walking, reconciling and
//! acting.

use accesskit_remote::atspi::bridge::is_window_lifecycle_event;
use accesskit_remote::atspi::bridge::AtspiEvent;
use accesskit_remote::atspi::bridge::Bridge;
use accesskit_remote::atspi::bridge::BridgeInput;
use accesskit_remote::atspi::bridge::BridgeWork;
use accesskit_remote::atspi::bridge::Reaction;
use accesskit_remote::atspi::coalesce::RewalkCoalescer;
use accesskit_remote::atspi::focus::FocusTracker;
use accesskit_remote::atspi::ids::NodeIdMap;
use accesskit_remote::atspi::ids::PathSet;
use accesskit_remote::atspi::mapping::WindowCache;
use accesskit_remote::atspi::mirror::characters_wanted;
use accesskit_remote::atspi::mirror::discovered_toplevel;
use accesskit_remote::atspi::mirror::plan_reads;
use accesskit_remote::atspi::mirror::selected_children;
use accesskit_remote::atspi::mirror::selected_request;
use accesskit_remote::atspi::mirror::selection_call;
use accesskit_remote::atspi::mirror::text_state;
use accesskit_remote::atspi::mirror::Climb;
use accesskit_remote::atspi::mirror::ClimbStep;
use accesskit_remote::atspi::mirror::SelectedChildren;
use accesskit_remote::atspi::mirror::SelectedRequest;
use accesskit_remote::atspi::mirror::SelectionCall;
use accesskit_remote::atspi::mirror::WindowWalk;
use accesskit_remote::atspi::node::MirrorNode;
use accesskit_remote::atspi::node::TextState;
use accesskit_remote::atspi::source::resolve_focus_target;
use accesskit_remote::atspi::source::Mirror;
use accesskit_remote::atspi::source::ObjectName;
use accesskit_remote::atspi::source::PerformMsg;
use accesskit_remote::atspi::source::WalkedObject;
use accesskit_remote::atspi::source::WalkedWindow;
use accesskit_remote::atspi::source::WindowState;
use accesskit_remote::atspi::source::ATSPI_ROOT_PATH;
use accesskit_remote::atspi::vocabulary::Interface;
use accesskit_remote::atspi::vocabulary::InterfaceSet;
use accesskit_remote::atspi::vocabulary::Role;
use accesskit_remote::atspi::vocabulary::State;
use accesskit_remote::atspi::vocabulary::StateSet;
use accesskit_remote::messages::AppInfo;
use accesskit_remote::messages::WindowId;
use accesskit_remote::source::SourceEvent;
use accesskit_remote::source::WindowDescriptor;
use accesskit_remote::tree::Action;
use accesskit_remote::tree::NodeId;
use accesskit_remote::tree::TextPosition;
use accesskit_remote::tree::TextSelection;
use std::collections::HashMap;

fn object(sender: &str, path: &str) -> ObjectName {
    ObjectName { bus_name: Some(sender.to_owned()), path: path.to_owned() }
}

/// Builds a one-node `WindowState`: the window root plus a single node whose
/// id is allocated in `ids` and, when `walked`, present in `objects`.
fn window_state(
    id: u64,
    sender: &'static str,
    root_path: &'static str,
    node_path: &'static str,
    walked: bool,
) -> WindowState {
    let root = object(sender, root_path);
    let mut ids = NodeIdMap::new();
    let node_id = ids.id_for(node_path);
    let mut objects = HashMap::new();
    if walked {
        objects.insert(node_id.0, WalkedObject { path: node_path.to_owned(), token: 0 });
    }
    WindowState {
        id: WindowId(id),
        root,
        ids,
        objects,
        focus: node_id,
        cache: WindowCache::new(),
    }
}

#[test]
fn resolves_by_sender_and_path() {
    let windows = vec![window_state(1, ":1.1", "/win/1", "/win/1/node", true)];
    let node = windows[0].ids.get("/win/1/node").unwrap();
    assert_eq!(
        resolve_focus_target(&windows, ":1.1", "/win/1/node"),
        Some((WindowId(1), node))
    );
}

#[test]
fn same_path_under_a_different_sender_does_not_match() {
    let windows = vec![window_state(1, ":1.1", "/win/1", "/shared/node", true)];
    assert_eq!(resolve_focus_target(&windows, ":1.2", "/shared/node"), None);
}

#[test]
fn multi_window_same_app_resolves_to_the_owning_window() {
    let windows = vec![
        window_state(1, ":1.1", "/win/1", "/win/1/node", true),
        window_state(2, ":1.1", "/win/2", "/win/2/node", true),
    ];
    let node2 = windows[1].ids.get("/win/2/node").unwrap();
    assert_eq!(
        resolve_focus_target(&windows, ":1.1", "/win/2/node"),
        Some((WindowId(2), node2))
    );
}

#[test]
fn path_absent_from_current_objects_does_not_resolve() {
    let windows = vec![window_state(1, ":1.1", "/win/1", "/win/1/gone", false)];
    assert_eq!(resolve_focus_target(&windows, ":1.1", "/win/1/gone"), None);
}

#[test]
fn unknown_path_does_not_resolve() {
    let windows = vec![window_state(1, ":1.1", "/win/1", "/win/1/node", true)];
    assert_eq!(resolve_focus_target(&windows, ":1.1", "/win/1/other"), None);
}

fn mirror_with(windows: Vec<WindowState>) -> Mirror {
    Mirror { windows, next_id: 100, focus: FocusTracker::new(None) }
}

#[test]
fn active_descendant_emits_a_focus_only_delta_and_window_focus() {
    let win = window_state(1, ":1.1", "/win/1", "/win/1/item", true);
    let node = win.ids.get("/win/1/item").unwrap();
    let mut mirror = mirror_with(vec![win]);

    let out = mirror.handle_active_descendant(":1.1", "/win/1/item");

    assert_eq!(out.len(), 2, "a focus-only delta plus a window focus change");
    match &out[0] {
        SourceEvent::TreeUpdate { window, update } => {
            assert_eq!(*window, WindowId(1));
            assert!(update.nodes.is_empty(), "focus-only delta touches no nodes");
            assert_eq!(update.focus, node);
        }
        _ => panic!("expected a TreeUpdate"),
    }
    assert!(matches!(out[1], SourceEvent::FocusChanged(Some(WindowId(1)))));
    assert_eq!(mirror.windows[0].focus, node, "window focus advanced to the descendant");
}

#[test]
fn active_descendant_absent_from_the_tree_emits_nothing() {
    let win = window_state(1, ":1.1", "/win/1", "/win/1/item", true);
    let mut mirror = mirror_with(vec![win]);
    assert!(mirror.handle_active_descendant(":1.1", "/win/1/gone").is_empty());
}

#[test]
fn windows_of_sender_returns_all_and_only_that_senders_windows() {
    let mirror = mirror_with(vec![
        window_state(1, ":1.1", "/win/1", "/win/1/node", true),
        window_state(2, ":1.1", "/win/2", "/win/2/node", true),
        window_state(3, ":1.2", "/win/3", "/win/3/node", true),
    ]);
    assert_eq!(
        mirror.windows_of_sender(":1.1"),
        vec![WindowId(1), WindowId(2)]
    );
    assert_eq!(mirror.windows_of_sender(":1.9"), Vec::<WindowId>::new());
}

#[test]
fn active_descendant_in_the_focused_window_dedups_the_window_focus() {
    let win = window_state(1, ":1.1", "/win/1", "/win/1/item", true);
    let node = win.ids.get("/win/1/item").unwrap();
    let mut mirror = Mirror {
        windows: vec![win],
        next_id: 100,
        focus: FocusTracker::new(Some(WindowId(1))),
    };
    let out = mirror.handle_active_descendant(":1.1", "/win/1/item");
    assert_eq!(out.len(), 1, "an already-focused window emits only the focus delta");
    assert!(matches!(&out[0], SourceEvent::TreeUpdate { .. }));
    assert_eq!(mirror.windows[0].focus, node);
}

fn node(path: &str, role: Role, children: &[&str]) -> MirrorNode {
    MirrorNode {
        path: path.to_owned(),
        role,
        name: path.to_owned(),
        children: children.iter().map(|c| (*c).to_owned()).collect(),
        ..Default::default()
    }
}

fn walked(sender: &str, path: &str, active: bool, nodes: Vec<MirrorNode>) -> WalkedWindow {
    let tokens = (0..nodes.len() as u64).collect();
    WalkedWindow {
        root: object(sender, path),
        descriptor: WindowDescriptor {
            id: WindowId(0),
            title: path.to_owned(),
            app: AppInfo::default(),
            native_window_id: None,
        },
        active,
        nodes,
        tokens,
    }
}

fn frame(path: &str, child: &str) -> Vec<MirrorNode> {
    vec![node(path, Role::Frame, &[child]), node(child, Role::Button, &[])]
}

#[test]
fn an_enumeration_announces_windows_and_focuses_the_active_one() {
    let mut mirror = Mirror::new();
    let (snapshot, focus) = mirror.enumerate(vec![
        walked(":1.1", "/a", false, frame("/a", "/a/b")),
        walked(":1.1", "/empty", true, Vec::new()),
        walked(":1.2", "/c", true, frame("/c", "/c/d")),
    ]);
    let ids: Vec<u64> = snapshot.iter().map(|(d, _)| d.id.0).collect();
    assert_eq!(ids, vec![1, 2], "an empty walk is not announced");
    assert_eq!(focus, Some(WindowId(2)));
    assert_eq!(mirror.focus.current(), Some(WindowId(2)));
    assert!(snapshot.iter().all(|(_, update)| update.tree.is_some() && update.nodes.len() == 2));

    let mut quiet = Mirror::new();
    let (_, focus) = quiet.enumerate(vec![
        walked(":1.1", "/a", false, frame("/a", "/a/b")),
        walked(":1.2", "/c", false, frame("/c", "/c/d")),
    ]);
    assert_eq!(focus, Some(WindowId(1)), "something must have focus");
}

#[test]
fn retiring_reports_what_is_gone_and_finds_what_is_new() {
    let mut mirror = Mirror::new();
    mirror.enumerate(vec![
        walked(":1.1", "/a", false, frame("/a", "/a/b")),
        walked(":1.2", "/c", true, frame("/c", "/c/d")),
    ]);
    let (events, added) = mirror.retire(&[object(":1.1", "/a"), object(":1.3", "/e")]);
    assert!(matches!(events[..], [SourceEvent::WindowRemoved(WindowId(2))]));
    assert_eq!(added, vec![1]);
    assert_eq!(mirror.windows.len(), 1);
    assert_eq!(mirror.focus.current(), None);
    let again = mirror.add_discovered(walked(":1.3", "/e", true, frame("/e", "/e/f")));
    assert_eq!(again.unwrap().0.id, WindowId(3), "an id is never given twice");
}

#[test]
fn a_rewalk_keeps_the_ids_of_what_is_still_there() {
    let mut mirror = Mirror::new();
    mirror.enumerate(vec![walked(":1.1", "/a", true, frame("/a", "/a/b"))]);
    let before = mirror.windows[0].ids.get("/a/b");
    let nodes = vec![
        node("/a", Role::Frame, &["/a/c", "/a/b"]),
        node("/a/c", Role::Label, &[]),
        node("/a/b", Role::Button, &[]),
    ];
    match mirror.rewalk(WindowId(1), &nodes, &[7, 8, 9]) {
        Some(SourceEvent::TreeUpdate { window, update }) => {
            assert_eq!(window, WindowId(1));
            assert_eq!(update.nodes.len(), 3);
        }
        other => panic!("unexpected event: {other:?}"),
    }
    assert_eq!(mirror.windows[0].ids.get("/a/b"), before);
    assert_eq!(mirror.windows[0].objects[&before.unwrap().0].token, 9);
    assert!(mirror.rewalk(WindowId(9), &nodes, &[7, 8, 9]).is_none());
}

fn text(path: &str, contents: &str, caret: usize) -> MirrorNode {
    MirrorNode {
        text: Some(TextState {
            text: contents.to_owned(),
            caret: Some(caret),
            selection: None,
            extents: None,
        }),
        ..node(path, Role::Text, &[])
    }
}

#[test]
fn a_text_is_read_again_with_its_caret_and_reported_by_difference() {
    let mut mirror = Mirror::new();
    let nodes = vec![node("/a", Role::Frame, &["/a/t"]), text("/a/t", "one", 0)];
    mirror.enumerate(vec![walked(":1.1", "/a", true, nodes)]);
    assert!(mirror.text_target(&object(":1.2", "/a/t")).is_none());
    let target = mirror.text_target(&object(":1.1", "/a/t")).unwrap();
    assert!(target.with_caret);
    let moved = TextState {
        text: "one".to_owned(),
        caret: Some(2),
        selection: None,
        extents: None,
    };
    let events = mirror.apply_text(target.index, "/a/t", &moved);
    match &events[..] {
        [SourceEvent::TreeUpdate { update, .. }] => assert_eq!(update.nodes.len(), 1),
        other => panic!("unexpected events: {other:?}"),
    }
    assert!(mirror.apply_text(target.index, "/a/t", &moved).is_empty());
}

#[test]
fn a_selection_is_resolved_against_the_targets_runs() {
    let mut mirror = Mirror::new();
    let nodes = vec![node("/a", Role::Frame, &["/a/t"]), text("/a/t", "one\ntwo", 0)];
    mirror.enumerate(vec![walked(":1.1", "/a", true, nodes)]);
    let ids = &mirror.windows[0].ids;
    let target = ids.get("/a/t").unwrap();
    let second_run = ids.get("/a/t#run1").unwrap();
    let place = |character_index| TextPosition { node: second_run, character_index };
    let msg = PerformMsg {
        window: WindowId(1),
        action: Action::SetTextSelection,
        node: target,
        data: Some(TextSelection { anchor: place(0), focus: place(2) }),
    };
    let resolved = mirror.action_target(&msg).unwrap();
    assert_eq!(resolved.token, 1);
    assert_eq!(resolved.selection, Some((4, 6)));
    let click = PerformMsg { action: Action::Click, data: None, ..msg };
    assert_eq!(mirror.action_target(&click).unwrap().selection, None);
    let nowhere = PerformMsg {
        window: WindowId(1),
        action: Action::Click,
        node: NodeId(99),
        data: None,
    };
    assert!(mirror.action_target(&nowhere).is_none());
}

#[test]
fn windows_come_and_go_by_lifecycle_signals_only() {
    let at = |path: &str| AtspiEvent::ChildrenChanged {
        sender: ":1.1".to_owned(),
        path: path.to_owned(),
    };
    assert!(is_window_lifecycle_event(&AtspiEvent::WindowCreated));
    assert!(is_window_lifecycle_event(&AtspiEvent::WindowDestroyed));
    assert!(is_window_lifecycle_event(&at(ATSPI_ROOT_PATH)));
    assert!(!is_window_lifecycle_event(&at("/a")));
    assert!(!is_window_lifecycle_event(&AtspiEvent::Other));
}

#[test]
fn signals_route_to_walks_focus_and_text() {
    let mut mirror = Mirror::new();
    let nodes = vec![node("/a", Role::Frame, &["/a/t"]), text("/a/t", "one", 0)];
    mirror.enumerate(vec![walked(":1.1", "/a", false, nodes)]);
    let mut pending = RewalkCoalescer::new(10, 100);
    let sender = || ":1.1".to_owned();

    let deep = AtspiEvent::ChildrenChanged { sender: sender(), path: "/a/t".to_owned() };
    let reaction = mirror.handle_atspi_event(&deep, &mut pending, 1000);
    assert!(matches!(reaction, Reaction::Report(events) if events.is_empty()));
    assert_eq!(pending.next_deadline(), Some(1010), "a deep change is debounced");

    let focused = AtspiEvent::StateChanged {
        sender: sender(),
        path: "/a/t".to_owned(),
        state: State::Focused,
        enabled: true,
    };
    match mirror.handle_atspi_event(&focused, &mut pending, 1000) {
        Reaction::Report(events) => assert_eq!(events.len(), 1, "the window has focus already"),
        other => panic!("unexpected reaction: {other:?}"),
    }

    let caret = AtspiEvent::CaretMoved(object(":1.1", "/a/t"));
    assert!(matches!(
        mirror.handle_atspi_event(&caret, &mut pending, 1000),
        Reaction::ReadText { with_geometry: false, .. }
    ));
    let changed = AtspiEvent::TextChanged(object(":1.1", "/a/t"));
    assert!(matches!(
        mirror.handle_atspi_event(&changed, &mut pending, 1000),
        Reaction::ReadText { with_geometry: true, .. }
    ));
    assert!(matches!(
        mirror.handle_atspi_event(&AtspiEvent::WindowCreated, &mut pending, 1000),
        Reaction::Reconcile
    ));
}

#[test]
fn a_bridge_stops_when_a_side_is_gone_and_walks_what_is_due() {
    let mut mirror = Mirror::new();
    mirror.enumerate(vec![walked(":1.1", "/a", true, frame("/a", "/a/b"))]);
    let mut bridge = Bridge::new(mirror);
    assert!(matches!(bridge.step(BridgeInput::ActionsClosed, 0), BridgeWork::Stop));
    assert!(matches!(bridge.step(BridgeInput::SignalsEnded, 0), BridgeWork::Stop));
    assert!(matches!(bridge.step(BridgeInput::SignalUnreadable, 0), BridgeWork::Nothing));
    assert!(matches!(bridge.step(BridgeInput::ReconcileTick, 0), BridgeWork::Reconcile));
    let deep = AtspiEvent::ChildrenChanged { sender: ":1.1".to_owned(), path: "/a/b".to_owned() };
    bridge.step(BridgeInput::Signal(deep), 1000);
    match bridge.step(BridgeInput::RewalkDue, 10_000) {
        BridgeWork::Rewalk(windows) => assert_eq!(windows, vec![WindowId(1)]),
        other => panic!("unexpected work: {other:?}"),
    }
    bridge.discard_removed(&[SourceEvent::WindowRemoved(WindowId(1))]);
    assert_eq!(bridge.pending.next_deadline(), None);
}

#[test]
fn only_visible_toplevels_are_discovered() {
    let mut showing = StateSet::empty();
    showing.insert(State::Showing);
    showing.insert(State::Visible);
    assert_eq!(discovered_toplevel(Some(Role::Frame), Some(&showing)), Some(false));
    showing.insert(State::Active);
    assert_eq!(discovered_toplevel(Some(Role::Frame), Some(&showing)), Some(true));
    assert_eq!(discovered_toplevel(Some(Role::Button), Some(&showing)), None);
    assert_eq!(discovered_toplevel(Some(Role::Frame), Some(&StateSet::empty())), None);
    assert_eq!(discovered_toplevel(None, Some(&showing)), None);
}

#[test]
fn a_walk_reads_each_object_once_in_breadth() {
    let mut walk = WindowWalk::new("/a".to_owned(), 0);
    let mut order = Vec::new();
    while let Some((path, token)) = walk.next() {
        order.push(path.clone());
        let children: Vec<(String, u64)> = match path.as_str() {
            "/a" => vec![("/b".to_owned(), 1), ("/c".to_owned(), 2)],
            "/b" => vec![("/c".to_owned(), 3), ("/a".to_owned(), 4)],
            _ => Vec::new(),
        };
        walk.accept(node(&path, Role::Panel, &[]), token, children);
    }
    assert_eq!(order, vec!["/a", "/b", "/c"]);
    let (nodes, tokens) = walk.finish();
    assert_eq!(nodes.len(), 3);
    assert_eq!(tokens, vec![0, 1, 2]);
}

#[test]
fn a_climb_ends_at_a_known_ancestor_or_gives_up() {
    let known = PathSet::of(&["/table".to_owned()]);
    let read = |path: &str, token| Some((node(path, Role::Panel, &[]), token));
    let (climb, step) = Climb::new(3).step(read("/cell", 1), &known);
    assert!(matches!(step, ClimbStep::Parent));
    match climb.unwrap().step(read("/table", 2), &known).1 {
        ClimbStep::Reached(chain) => {
            let tokens: Vec<u64> = chain.iter().map(|(_, token)| *token).collect();
            assert_eq!(tokens, vec![2, 1], "the known ancestor comes first");
        }
        _ => panic!("the ancestor is known"),
    }
    assert!(matches!(Climb::new(1).step(read("/cell", 1), &known).1, ClimbStep::GivenUp));
    assert!(matches!(Climb::new(3).step(None, &known).1, ClimbStep::GivenUp));
}

#[test]
fn offsets_that_are_negative_or_too_long_are_taken_in() {
    assert_eq!(characters_wanted(-1), 0);
    assert_eq!(characters_wanted(12), 12);
    let state = text_state("abc", Some(-1), Some((2, 99)), None);
    assert_eq!(state.text, "abc");
    assert_eq!(state.caret, None, "a negative offset is no offset");
    assert_eq!(text_state("abc", Some(9), None, None).caret, Some(3));
    assert_eq!(state.selection, Some((2, 3)));
    assert_eq!(selection_call(3, 3), SelectionCall::Caret(3));
    assert_eq!(selection_call(1, 4), SelectionCall::Range(1, 4));
    assert_eq!(selection_call(4, 1), SelectionCall::Range(1, 4));
}

#[test]
fn selections_are_read_up_to_a_cap() {
    assert_eq!(selected_request(-3, 5), SelectedRequest::Read(0));
    assert_eq!(selected_request(5, 5), SelectedRequest::Read(5));
    assert_eq!(selected_request(6, 5), SelectedRequest::TooMany);
    let read = selected_children(Some(vec![Some("/a".to_owned()), None, Some("/b".to_owned())]));
    assert!(matches!(read, SelectedChildren::Paths(paths) if paths == ["/a", "/b"]));
    assert!(matches!(selected_children(None), SelectedChildren::Unavailable));
}

#[test]
fn reads_are_planned_by_role_and_interface() {
    let mut interfaces = InterfaceSet::empty();
    interfaces.insert(Interface::Text);
    interfaces.insert(Interface::Component);
    let plan = plan_reads(Some(Role::Text), Some(&interfaces), false, true);
    assert!(plan.text && plan.caret && plan.extents);
    let plan = plan_reads(Some(Role::Label), Some(&interfaces), false, true);
    assert!(plan.text && !plan.caret);
    let plan = plan_reads(Some(Role::Text), Some(&interfaces), false, false);
    assert!(!plan.text, "a refresh reads no text");
}
