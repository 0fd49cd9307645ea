//! The smaller decisions of the AT-SPI source: application ids, debouncing, focus,
//! invalidation, the window difference and action plans.

use accesskit_remote::atspi::app_id::is_candidate_name;
use accesskit_remote::atspi::app_id::pick_app_id;
use accesskit_remote::atspi::app_id::AppIdLookup;
use accesskit_remote::atspi::app_id::AppIdResolver;
use accesskit_remote::atspi::coalesce::RewalkCoalescer;
use accesskit_remote::atspi::drive::is_option_role;
use accesskit_remote::atspi::drive::named_steps;
use accesskit_remote::atspi::drive::plan_action;
use accesskit_remote::atspi::drive::ActionContext;
use accesskit_remote::atspi::drive::AtspiCall;
use accesskit_remote::atspi::drive::Stepping;
use accesskit_remote::atspi::focus::FocusTracker;
use accesskit_remote::atspi::invalidate::property_is_mirrored;
use accesskit_remote::atspi::invalidate::state_is_mirrored;
use accesskit_remote::atspi::node::node_states;
use accesskit_remote::atspi::node::ValueState;
use accesskit_remote::atspi::reconcile::reconcile_windows;
use accesskit_remote::atspi::reconcile::WindowKey;
use accesskit_remote::atspi::vocabulary::Interface;
use accesskit_remote::atspi::vocabulary::InterfaceSet;
use accesskit_remote::atspi::vocabulary::Role;
use accesskit_remote::atspi::vocabulary::State;
use accesskit_remote::atspi::vocabulary::StateSet;
use accesskit_remote::messages::WindowId;
use accesskit_remote::number::Float64;
use accesskit_remote::tree::Action;
use accesskit_remote::tree::ActionData;

#[test]
fn candidate_rejects_unique_names() {
    assert!(!is_candidate_name(":1.42"));
}

#[test]
fn candidate_rejects_infrastructure_prefixes() {
    assert!(!is_candidate_name("org.freedesktop.FileManager1"));
    assert!(!is_candidate_name("org.a11y.Bus"));
    assert!(!is_candidate_name("org.gtk.vfs.Daemon"));
}

#[test]
fn candidate_requires_reverse_dns() {
    assert!(!is_candidate_name("Notifications"));
    assert!(!is_candidate_name("org.gnome"));
    assert!(is_candidate_name("org.gnome.TextEditor"));
    assert!(is_candidate_name("org.libreoffice.LibreOffice"));
}

#[test]
fn pick_is_deterministic_and_sorted() {
    assert_eq!(
        pick_app_id(vec!["org.gnome.b".into(), "org.gnome.a".into()]),
        Some("org.gnome.a".to_owned())
    );
    assert_eq!(pick_app_id(Vec::new()), None);
}

#[test]
fn an_answer_is_remembered_even_when_there_is_none() {
    let mut resolver = AppIdResolver::new();
    assert!(matches!(resolver.lookup(7), AppIdLookup::Unknown));
    assert_eq!(resolver.record(7, Vec::new()), None);
    assert!(matches!(resolver.lookup(7), AppIdLookup::Known(None)));
    let owned = vec!["org.b.C".to_owned(), "org.a.B".to_owned()];
    assert_eq!(resolver.record(8, owned), Some("org.a.B".to_owned()));
    assert!(matches!(resolver.lookup(8), AppIdLookup::Known(Some(id)) if id == "org.a.B"));
    assert!(resolver.may_open_session());
    resolver.note_session_failed();
    assert!(!resolver.may_open_session());
}

const QUIET: u64 = 250;
const MAX: u64 = 2000;
const BASE: u64 = 1_000_000;
const W1: WindowId = WindowId(1);
const W2: WindowId = WindowId(2);

/// A time as deadlines are given.
fn at(time: u64) -> u128 {
    u128::from(time)
}

fn coalescer() -> RewalkCoalescer {
    RewalkCoalescer::new(QUIET, MAX)
}

#[test]
fn single_note_fires_after_quiet() {
    let mut c = coalescer();
    c.note(W1, BASE);
    assert_eq!(c.next_deadline(), Some(at(BASE + QUIET)));

    let not_yet = c.take_due(BASE + QUIET - 1);
    assert_eq!(not_yet, Vec::<WindowId>::new(), "not due yet");
    assert_eq!(c.next_deadline(), Some(at(BASE + QUIET)), "still pending");

    let due = c.take_due(BASE + QUIET);
    assert_eq!(due, vec![W1]);
    assert_eq!(c.next_deadline(), None, "nothing left pending");
}

#[test]
fn renote_within_quiet_extends_deadline() {
    let mut c = coalescer();
    c.note(W1, BASE);
    c.note(W1, BASE + 100);

    assert_eq!(
        c.take_due(BASE + QUIET),
        Vec::<WindowId>::new(),
        "the renote pushed the deadline past the original quiet window"
    );
    assert_eq!(c.take_due(BASE + 100 + QUIET), vec![W1]);
}

#[test]
fn steady_stream_capped_at_max_delay() {
    let mut c = coalescer();

    let mut t = BASE;
    c.note(W1, t);
    assert!(c.next_deadline().unwrap() <= at(BASE + MAX));
    while t + 200 < BASE + MAX {
        t += 200;
        c.note(W1, t);
        assert!(
            c.next_deadline().unwrap() <= at(BASE + MAX),
            "a steady stream must never defer the deadline past the cap"
        );
    }

    // The last note above lands within `quiet` of the cap, so an
    // uncapped debounce would not be due yet; the cap makes it due.
    let due = c.take_due(BASE + MAX);
    assert_eq!(due, vec![W1]);
}

#[test]
fn note_after_take_due_starts_a_fresh_burst() {
    let mut c = coalescer();
    c.note(W1, BASE);
    assert_eq!(c.take_due(BASE + QUIET), vec![W1]);

    let t0 = BASE + 10_000;
    c.note(W1, t0);
    assert_eq!(
        c.next_deadline(),
        Some(at(t0 + QUIET)),
        "a fresh burst debounces from its own first note"
    );

    // The cap resets with the burst too: a steady stream now caps at
    // t0 + max_delay, not the original base + max_delay.
    let mut t = t0;
    while t + 200 < t0 + MAX {
        t += 200;
        c.note(W1, t);
        assert!(c.next_deadline().unwrap() <= at(t0 + MAX));
    }
    assert_eq!(c.take_due(t0 + MAX), vec![W1]);
}

#[test]
fn two_windows_independent_deadlines_and_min_next_deadline() {
    let mut c = coalescer();
    c.note(W1, BASE);
    c.note(W2, BASE + 50);

    assert_eq!(c.next_deadline(), Some(at(BASE + QUIET)), "w1's earlier deadline wins");

    let due = c.take_due(BASE + QUIET);
    assert_eq!(due, vec![W1], "only w1 is due");
    assert_eq!(
        c.next_deadline(),
        Some(at(BASE + 50 + QUIET)),
        "w2 is still pending on its own deadline"
    );
}

#[test]
fn take_due_leaves_undue_windows_pending() {
    let mut c = coalescer();
    c.note(W1, BASE);
    c.note(W2, BASE + 50);

    assert_eq!(c.take_due(BASE + QUIET), vec![W1]);
    assert_eq!(
        c.next_deadline(),
        Some(at(BASE + 50 + QUIET)),
        "w2 survives the drain that removed w1"
    );
}

#[test]
fn discard_removes_a_window() {
    let mut c = coalescer();
    c.note(W1, BASE);
    c.note(W2, BASE + 50);

    c.discard(W1);
    assert_eq!(c.next_deadline(), Some(at(BASE + 50 + QUIET)), "only w2 remains pending");
    assert_eq!(
        c.take_due(BASE + QUIET),
        Vec::<WindowId>::new(),
        "w1 was discarded before its old deadline"
    );

    c.discard(W1); // already gone: no-op
    c.discard(WindowId(999)); // never seen: no-op
}

#[test]
fn focus_emits_once_then_dedupes() {
    let mut tracker = FocusTracker::default();
    assert_eq!(tracker.focus(W1), Some(Some(W1)));
    assert_eq!(tracker.focus(W1), None, "re-focusing the same window is a no-op");
}

#[test]
fn switching_windows_emits_the_new_focus() {
    let mut tracker = FocusTracker::new(Some(W1));
    assert_eq!(tracker.focus(W1), None, "initial focus is already held");
    assert_eq!(tracker.focus(W2), Some(Some(W2)));
}

#[test]
fn deactivate_clears_only_the_current_window() {
    let mut tracker = FocusTracker::new(Some(W1));
    assert_eq!(tracker.deactivate(W2), None, "deactivating a non-current window is ignored");
    assert_eq!(tracker.deactivate(W1), Some(None));
    // Cleared: re-focusing W1 emits again.
    assert_eq!(tracker.focus(W1), Some(Some(W1)));
}

#[test]
fn remove_of_current_clears_silently_and_next_focus_emits() {
    let mut tracker = FocusTracker::new(Some(W1));
    tracker.remove(W1);
    assert_eq!(tracker.focus(W2), Some(Some(W2)), "focus after a removal still emits");
}

#[test]
fn remove_of_non_current_leaves_focus_intact() {
    let mut tracker = FocusTracker::new(Some(W1));
    tracker.remove(W2);
    // Intact: re-focusing the still-current W1 is a no-op.
    assert_eq!(tracker.focus(W1), None);
}

/// Every [`State`] there is.
fn all_states() -> Vec<State> {
    vec![
        State::Invalid,
        State::Active,
        State::Armed,
        State::Busy,
        State::Checked,
        State::Collapsed,
        State::Defunct,
        State::Editable,
        State::Enabled,
        State::Expandable,
        State::Expanded,
        State::Focusable,
        State::Focused,
        State::HasTooltip,
        State::Horizontal,
        State::Iconified,
        State::Modal,
        State::MultiLine,
        State::Multiselectable,
        State::Opaque,
        State::Pressed,
        State::Resizable,
        State::Selectable,
        State::Selected,
        State::Sensitive,
        State::Showing,
        State::SingleLine,
        State::Stale,
        State::Transient,
        State::Vertical,
        State::Visible,
        State::ManagesDescendants,
        State::Indeterminate,
        State::Required,
        State::Truncated,
        State::Animated,
        State::InvalidEntry,
        State::SupportsAutocompletion,
        State::SelectableText,
        State::IsDefault,
        State::Visited,
        State::Checkable,
        State::HasPopup,
        State::ReadOnly,
    ]
}

#[test]
fn mirrored_states_are_exactly_the_forwarded_ones() {
    let baseline = node_states(&StateSet::empty());
    let states = all_states();
    assert!(states.len() > 40, "the whole state surface is under test");
    for state in states {
        let distilled = node_states(&StateSet::new(state)) != baseline;
        assert_eq!(
            state_is_mirrored(state),
            distilled,
            "{state:?}: mirrored={}, but node_states {} it",
            state_is_mirrored(state),
            if distilled { "distills" } else { "ignores" },
        );
    }
}

#[test]
fn mirrored_properties_are_the_ones_the_mapping_reads() {
    for property in [
        "accessible-name",
        "accessible-description",
        "accessible-role",
        "accessible-value",
    ] {
        assert!(property_is_mirrored(property), "{property} reaches accesskit");
    }
    for property in ["accessible-parent", "accessible-table-caption", "", "name"] {
        assert!(!property_is_mirrored(property), "{property:?} is not mirrored");
    }
}

fn key(bus_name: &str, path: &str) -> WindowKey {
    WindowKey { bus_name: bus_name.to_owned(), path: path.to_owned() }
}

#[test]
fn identical_sets_produce_no_changes() {
    let held = [key(":1.10", "/window/0"), key(":1.11", "/window/0")];
    let discovered = held.clone();
    let diff = reconcile_windows(&held, &discovered);
    assert_eq!(diff.added, Vec::<usize>::new());
    assert_eq!(diff.removed, Vec::<usize>::new());
}

#[test]
fn a_new_window_is_reported_as_added() {
    let held = [key(":1.10", "/window/0")];
    let discovered = [key(":1.10", "/window/0"), key(":1.10", "/window/1")];
    let diff = reconcile_windows(&held, &discovered);
    assert_eq!(diff.added, vec![1], "index into discovered of the new window");
    assert_eq!(diff.removed, Vec::<usize>::new());
}

#[test]
fn a_vanished_window_is_reported_as_removed() {
    let held = [key(":1.10", "/window/0"), key(":1.10", "/window/1")];
    let discovered = [key(":1.10", "/window/0")];
    let diff = reconcile_windows(&held, &discovered);
    assert_eq!(diff.added, Vec::<usize>::new());
    assert_eq!(diff.removed, vec![1], "index into held of the gone window");
}

#[test]
fn same_path_under_a_different_app_is_a_distinct_window() {
    let held = [key(":1.10", "/window/0")];
    let discovered = [key(":1.20", "/window/0")];
    let diff = reconcile_windows(&held, &discovered);
    assert_eq!(diff.added, vec![0], "the other app's window is new");
    assert_eq!(diff.removed, vec![0], "the original app's window is gone");
}

#[test]
fn simultaneous_add_and_remove_are_both_reported() {
    let held = [key(":1.10", "/window/0"), key(":1.10", "/window/1")];
    let discovered = [key(":1.10", "/window/1"), key(":1.10", "/window/2")];
    let diff = reconcile_windows(&held, &discovered);
    assert_eq!(diff.added, vec![1], "/window/2 is new");
    assert_eq!(diff.removed, vec![0], "/window/0 is gone; /window/1 persists");
}

/// A context expressing nothing: no interfaces, no actions, no value, no
/// parent selection. Individual tests override the fields their scenario
/// needs via `..ctx()`.
fn ctx() -> ActionContext {
    ActionContext {
        role: Role::Invalid,
        interfaces: InterfaceSet::empty(),
        actions: Vec::new(),
        parent_interfaces: InterfaceSet::empty(),
        index_in_parent: None,
        value: None,
    }
}

fn float(number: f64) -> Float64 {
    Float64(number.to_bits())
}

/// A value, and what arithmetic gives on it.
fn ranged(current: f64, minimum: f64, maximum: f64, step: f64) -> Option<(ValueState, Stepping)> {
    let hundredth = (maximum - minimum) / 100.0;
    Some((
        ValueState {
            current: float(current),
            minimum: float(minimum),
            maximum: float(maximum),
            step: float(step),
        },
        Stepping {
            hundredth: float(hundredth),
            up_by_step: float(current + step),
            down_by_step: float(current - step),
            up_by_hundredth: float(current + hundredth),
            down_by_hundredth: float(current - hundredth),
        },
    ))
}

#[test]
fn click_on_a_selectable_option_prefers_select_child_then_falls_back() {
    let mut parent_interfaces = InterfaceSet::empty();
    parent_interfaces.insert(Interface::Selection);
    let target = ActionContext {
        role: Role::ListItem,
        parent_interfaces,
        index_in_parent: Some(3),
        actions: vec!["Click".to_owned()],
        ..ctx()
    };

    let plan = plan_action(&target, Action::Click, None);

    assert_eq!(
        plan,
        vec![AtspiCall::SelectChildOfParent(3), AtspiCall::DoAction(0)]
    );
}

#[test]
fn focus_falls_back_from_grab_focus_to_select_child() {
    let mut parent_interfaces = InterfaceSet::empty();
    parent_interfaces.insert(Interface::Selection);
    let target = ActionContext {
        role: Role::ListItem,
        parent_interfaces,
        index_in_parent: Some(2),
        actions: Vec::new(),
        ..ctx()
    };

    let plan = plan_action(&target, Action::Focus, None);

    assert_eq!(
        plan,
        vec![AtspiCall::GrabFocus, AtspiCall::SelectChildOfParent(2)]
    );
}

#[test]
fn expand_prefers_a_named_action_and_falls_back_to_index_zero() {
    let named = ActionContext {
        actions: vec!["other".to_owned(), "menu.popup".to_owned()],
        ..ctx()
    };
    let expand_plan = plan_action(&named, Action::Expand, None);
    assert_eq!(
        expand_plan,
        vec![AtspiCall::DoAction(1), AtspiCall::DoAction(0)],
        "a named action match plans that index, then falls back to index 0"
    );

    let unnamed = ActionContext { actions: vec![String::new()], ..ctx() };
    let expand_plan_unnamed = plan_action(&unnamed, Action::Expand, None);
    assert_eq!(
        expand_plan_unnamed,
        vec![AtspiCall::DoAction(0)],
        "the VCL empty-name case still plans the index-0 fallback"
    );

    let collapse_plan = plan_action(&named, Action::Collapse, None);
    assert_eq!(
        collapse_plan.first(),
        Some(&AtspiCall::DoAction(1)),
        "collapsing an open popup is driven by the same named action set as expand"
    );
    assert_eq!(collapse_plan.last(), Some(&AtspiCall::DoAction(0)));
}

#[test]
fn increment_clamps_to_the_range_and_synthesises_a_step_when_the_toolkit_reports_zero() {
    let zero_step = ActionContext { value: ranged(9.95, 0.0, 10.0, 0.0), ..ctx() };
    let increment_plan = plan_action(&zero_step, Action::Increment, None);
    assert_eq!(
        increment_plan,
        vec![AtspiCall::SetCurrentValue(float(10.0))],
        "a synthesized step of (max - min) / 100, clamped to the range"
    );

    let real_step = ActionContext { value: ranged(9.8, 0.0, 10.0, 0.5), ..ctx() };
    let increment_plan = plan_action(&real_step, Action::Increment, None);
    assert_eq!(increment_plan, vec![AtspiCall::SetCurrentValue(float(10.0))]);
    let decrement_plan = plan_action(&real_step, Action::Decrement, None);
    assert_eq!(decrement_plan, vec![AtspiCall::SetCurrentValue(float(9.3))]);
}

#[test]
fn set_value_routes_to_editable_text_or_value_by_interface() {
    let mut editable_text = InterfaceSet::empty();
    editable_text.insert(Interface::EditableText);
    let text_target = ActionContext { interfaces: editable_text, ..ctx() };
    let string_data = ActionData::Value("hello".into());
    let plan = plan_action(&text_target, Action::SetValue, Some(&string_data));
    assert_eq!(plan, vec![AtspiCall::SetTextContents("hello".to_owned())]);

    let mut value_iface = InterfaceSet::empty();
    value_iface.insert(Interface::Value);
    let value_target = ActionContext { interfaces: value_iface, ..ctx() };
    let numeric_data = ActionData::NumericValue(float(5.0));
    let plan = plan_action(&value_target, Action::SetValue, Some(&numeric_data));
    assert_eq!(plan, vec![AtspiCall::SetCurrentValue(float(5.0))]);
}

#[test]
fn unexpressible_actions_plan_no_steps() {
    assert_eq!(plan_action(&ctx(), Action::Click, None), Vec::new());
    assert_eq!(plan_action(&ctx(), Action::Expand, None), Vec::new());
    assert_eq!(plan_action(&ctx(), Action::Increment, None), Vec::new());
}

#[test]
fn action_names_match_in_any_case() {
    let shouting = ActionContext {
        actions: vec!["Other".to_owned(), "PRESS".to_owned(), "Click".to_owned()],
        ..ctx()
    };
    assert_eq!(
        plan_action(&shouting, Action::Click, None),
        vec![AtspiCall::DoAction(2), AtspiCall::DoAction(1), AtspiCall::DoAction(0)]
    );
}

#[test]
fn lower_case_names_are_tried_in_the_order_of_the_candidates() {
    let names = vec!["b".to_owned(), "a".to_owned(), "b".to_owned()];
    assert_eq!(
        named_steps(&names, &["a", "b"], true),
        vec![AtspiCall::DoAction(1), AtspiCall::DoAction(0), AtspiCall::DoAction(2)]
    );
    assert_eq!(named_steps(&[], &["a"], true), vec![AtspiCall::DoAction(0)]);
    assert_eq!(named_steps(&[], &["a"], false), Vec::new());
    assert!(is_option_role(Role::TreeItem));
    assert!(!is_option_role(Role::Button));
}

#[test]
fn values_that_cannot_be_stepped_are_left_alone() {
    let unbounded = ActionContext { value: ranged(1.0, 0.0, f64::INFINITY, 0.0), ..ctx() };
    assert_eq!(plan_action(&unbounded, Action::Increment, None), Vec::new());
    let stepped = ActionContext { value: ranged(1.0, 0.0, f64::INFINITY, 2.0), ..ctx() };
    assert_eq!(
        plan_action(&stepped, Action::Increment, None),
        vec![AtspiCall::SetCurrentValue(float(3.0))]
    );
    let nan = ActionData::NumericValue(float(f64::NAN));
    let mut interfaces = InterfaceSet::empty();
    interfaces.insert(Interface::Value);
    let target = ActionContext { interfaces, ..ctx() };
    assert_eq!(plan_action(&target, Action::SetValue, Some(&nan)), Vec::new());
}

#[test]
fn deadlines_hold_at_the_end_of_time() {
    let mut c = coalescer();
    c.note(W1, u64::MAX);
    assert_eq!(c.next_deadline(), Some(at(u64::MAX) + at(QUIET)));
    c.discard(W1);
    assert_eq!(c.next_deadline(), None);
    // A fresh burst, of a coalescer that is capped sooner than it is quiet.
    let mut c = RewalkCoalescer::new(MAX, QUIET);
    c.note(W1, BASE);
    assert_eq!(c.next_deadline(), Some(at(BASE + QUIET)));
}

#[test]
fn a_discarded_window_starts_a_fresh_burst() {
    let mut c = coalescer();
    for i in 0..20 {
        c.note(W1, BASE + i * 100);
    }
    c.discard(W1);
    c.note(W1, BASE + MAX + 1);
    assert_eq!(c.next_deadline(), Some(at(BASE + MAX + 1 + QUIET)));
}
