//! From accessibility elements to trees: names, roles, values, text, nodes, walks.

use accesskit_remote::ax::attr::as_bool;
use accesskit_remote::ax::attr::as_f64;
use accesskit_remote::ax::attr::as_range;
use accesskit_remote::ax::attr::as_string;
use accesskit_remote::ax::attr::classify;
use accesskit_remote::ax::attr::AxError;
use accesskit_remote::ax::attr::AxValue;
use accesskit_remote::ax::attr::Status;
use accesskit_remote::ax::element::ElementKey;
use accesskit_remote::ax::element::NodeIdMap;
use accesskit_remote::ax::names::Names;
use accesskit_remote::ax::node::build_container;
use accesskit_remote::ax::node::flatten;
use accesskit_remote::ax::node::static_text;
use accesskit_remote::ax::node::takes_name_from_contents;
use accesskit_remote::ax::node::text_within;
use accesskit_remote::ax::node::AxNode;
use accesskit_remote::ax::node::ElementReads;
use accesskit_remote::ax::node::NodeStates;
use accesskit_remote::ax::node::I_ENABLED;
use accesskit_remote::ax::node::I_FOCUSED;
use accesskit_remote::ax::node::I_ROLE;
use accesskit_remote::ax::node::I_TITLE;
use accesskit_remote::ax::node::NAME_SEARCH_DEPTH;
use accesskit_remote::ax::role::is_known;
use accesskit_remote::ax::role::is_window;
use accesskit_remote::ax::role::refine;
use accesskit_remote::ax::text::build_runs;
use accesskit_remote::ax::text::char_to_utf16_offset;
use accesskit_remote::ax::text::character_lengths;
use accesskit_remote::ax::text::clamp;
use accesskit_remote::ax::text::position;
use accesskit_remote::ax::text::selection;
use accesskit_remote::ax::text::split_runs;
use accesskit_remote::ax::text::utf16_to_char_index;
use accesskit_remote::ax::text::word_starts;
use accesskit_remote::ax::text::RunLayout;
use accesskit_remote::ax::text::MAX_TEXT_CHARS;
use accesskit_remote::ax::walk::build_window_update;
use accesskit_remote::ax::walk::emitted_children;
use accesskit_remote::ax::walk::WindowWalk;
use accesskit_remote::number::Float64;
use accesskit_remote::tree::Action;
use accesskit_remote::tree::Node;
use accesskit_remote::tree::NodeId;
use accesskit_remote::tree::Role;
use accesskit_remote::tree::TextDirection;
use accesskit_remote::tree::TextPosition;
use accesskit_remote::tree::Toggled;
use accesskit_remote::tree::TreeUpdate;

// ---------------------------------------------------------------- names

#[test]
fn every_name_is_an_ax_prefixed_string_that_survives_conversion() {
    let names = Names::new();
    // Guards against a typo'd literal, which would otherwise present as an
    // attribute that silently never reads on any application.
    for (field, value) in names.entries() {
        assert!(value.starts_with("AX"), "{field} = {value:?} is not an AX name");
        assert!(!value.contains(' '), "{field} = {value:?} has whitespace");
    }
    assert_eq!(names.role.to_string(), "AXRole");
    assert_eq!(names.manual_accessibility.to_string(), "AXManualAccessibility");
}

/// Guards a mistake that fails *silently*: using a C constant's identifier
/// as its value. `kAXBoundsForRangeParameterizedAttribute` is the name of
/// the constant; `AXBoundsForRange` is the string it holds. Reading the
/// wrong one returns nothing at all, so the geometry simply never appears
/// and nothing anywhere reports an error.
#[test]
fn no_name_is_a_c_constant_identifier() {
    for (field, value) in Names::new().entries() {
        assert!(
            !value.ends_with("Attribute"),
            "{field} = {value:?} looks like a constant's name, not its value"
        );
        assert!(
            !value.starts_with("kAX"),
            "{field} = {value:?} is the C identifier rather than the wire name"
        );
    }
}

#[test]
fn no_two_fields_share_a_name() {
    let entries = Names::new().entries();
    let mut seen: Vec<&str> = entries.iter().map(|(_, value)| *value).collect();
    seen.sort_unstable();
    let count = seen.len();
    seen.dedup();
    assert_eq!(seen.len(), count, "a duplicated attribute name is a copy-paste slip");
}

// ---------------------------------------------------------------- roles

#[test]
fn subrole_beats_role_where_it_carries_the_distinction() {
    // The whole reason the map takes a pair: these three share one role.
    assert_eq!(accesskit_remote::ax::role::map("AXTextField", None), Role::TextInput);
    assert_eq!(accesskit_remote::ax::role::map("AXTextField", Some("AXSearchField")), Role::SearchInput);
    assert_eq!(accesskit_remote::ax::role::map("AXTextField", Some("AXSecureTextField")), Role::PasswordInput);

    // As do these two.
    assert_eq!(accesskit_remote::ax::role::map("AXWindow", Some("AXStandardWindow")), Role::Window);
    assert_eq!(accesskit_remote::ax::role::map("AXWindow", Some("AXDialog")), Role::Dialog);
    assert_eq!(accesskit_remote::ax::role::map("AXWindow", Some("AXSystemDialog")), Role::Dialog);

    assert_eq!(accesskit_remote::ax::role::map("AXCheckBox", None), Role::CheckBox);
    assert_eq!(accesskit_remote::ax::role::map("AXCheckBox", Some("AXToggle")), Role::Switch);
}

#[test]
fn an_unknown_subrole_falls_through_to_the_role() {
    // Applications invent subroles freely; an unrecognised one must not
    // discard what the role already told us.
    assert_eq!(accesskit_remote::ax::role::map("AXButton", Some("AXSomethingNobodyHasSeen")), Role::Button);
    assert_eq!(accesskit_remote::ax::role::map("AXSlider", Some("AXWhatever")), Role::Slider);
}

#[test]
fn structural_containers_stay_transparent() {
    // `common_filter` drops exactly GenericContainer and TextRun, so this
    // set is what keeps layout boxes from flooding the consumer. Promoting
    // any of these is the documented mistake.
    for role in [
        "AXGroup",
        "AXSplitGroup",
        "AXScrollArea",
        "AXLayoutArea",
        "AXLayoutItem",
        "AXUnknown",
    ] {
        assert_eq!(accesskit_remote::ax::role::map(role, None), Role::GenericContainer, "{role} must stay transparent");
    }
}

#[test]
fn coverage_is_answerable_separately_from_the_mapping() {
    // A deliberately transparent role and an unmapped one both land on
    // GenericContainer, so only this can tell them apart.
    assert!(is_known("AXGroup", None), "AXGroup is transparent on purpose");
    assert!(!is_known("AXSomeFutureRole", None), "and this simply is not mapped");
    assert!(is_known("AXTextField", Some("AXSearchField")));
    assert!(is_known("AXAnything", Some("AXDialog")), "a known subrole is enough");
}

#[test]
fn an_unmapped_role_hides_rather_than_puzzles() {
    // `Unknown` survives the consumer filter and would surface a mystery
    // node; `GenericContainer` lets the children speak instead.
    assert_eq!(accesskit_remote::ax::role::map("AXSomeFutureRole", None), Role::GenericContainer);
    assert_ne!(accesskit_remote::ax::role::map("AXSomeFutureRole", None), Role::Unknown);
}

#[test]
fn only_a_named_generic_container_is_promoted() {
    assert_eq!(refine(Role::GenericContainer, false), Role::GenericContainer);
    assert_eq!(refine(Role::GenericContainer, true), Role::Group);
    // Refinement must never touch a role that was already meaningful.
    assert_eq!(refine(Role::Button, true), Role::Button);
    assert_eq!(refine(Role::Label, true), Role::Label);
}

/// The roles observed live across Finder, TextEdit, Safari, System Settings
/// and 1Password. Every one must map to something the consumer can use, or
/// deliberately to `GenericContainer`.
#[test]
fn every_role_seen_on_a_real_desktop_is_accounted_for() {
    let observed = [
        ("AXWindow", Role::Window),
        ("AXButton", Role::Button),
        ("AXGroup", Role::GenericContainer),
        ("AXStaticText", Role::Label),
        ("AXHeading", Role::Heading),
        ("AXImage", Role::Image),
        ("AXLink", Role::Link),
        ("AXMenuButton", Role::Button),
        ("AXScrollArea", Role::GenericContainer),
        ("AXSplitGroup", Role::GenericContainer),
        ("AXTabGroup", Role::TabList),
        ("AXTextField", Role::TextInput),
        ("AXToolbar", Role::Toolbar),
        ("AXWebArea", Role::RootWebArea),
        ("AXTextArea", Role::MultilineTextInput),
    ];
    for (role, expected) in observed {
        assert_eq!(accesskit_remote::ax::role::map(role, None), expected, "{role}");
    }
}

#[test]
fn window_detection_matches_what_discovery_filters_on() {
    // Finder publishes its desktop inside `AXWindows` as an AXScrollArea;
    // discovery drops it on exactly this predicate.
    assert!(is_window("AXWindow"));
    assert!(!is_window("AXScrollArea"));
    assert!(!is_window("AXSheet"));
}

// ---------------------------------------------------------------- values

fn text_value(text: &str) -> Option<AxValue> {
    Some(AxValue::Text(text.to_owned()))
}

fn number_value(number: f64) -> Option<AxValue> {
    Some(AxValue::Number(Float64(number.to_bits())))
}

#[test]
fn values_read_as_their_own_type_and_decline_others() {
    let string = text_value("AXButton");
    assert_eq!(as_string(&string).as_deref(), Some("AXButton"));
    assert_eq!(as_bool(&string), None);
    assert_eq!(as_f64(&string), None);

    let number = number_value(3.0);
    assert_eq!(as_f64(&number), Some(Float64(3.0f64.to_bits())));
    assert_eq!(as_string(&number), None);
    assert_eq!(as_string(&None), None);
    assert_eq!(as_bool(&Some(AxValue::Other)), None);
}

#[test]
fn a_numeric_zero_or_one_reads_as_a_boolean() {
    // AppKit reports `AXEnabled` as a CFBoolean, but several toolkits use
    // 0/1 numbers for the same idea, so both must map.
    assert_eq!(as_bool(&Some(AxValue::Flag(true))), Some(true));
    assert_eq!(as_bool(&Some(AxValue::Flag(false))), Some(false));
    assert_eq!(as_bool(&number_value(1.0)), Some(true));
    assert_eq!(as_bool(&number_value(0.0)), Some(false));
}

#[test]
fn a_negative_zero_is_no_flag() {
    assert_eq!(as_bool(&number_value(-0.0)), Some(false));
}

#[test]
fn error_names_are_stable_and_death_is_narrow() {
    assert_eq!(AxError(Status::AttributeUnsupported).name(), "attributeUnsupported");
    assert_eq!(AxError(Status::APIDisabled).name(), "apiDisabled");
    assert!(AxError(Status::InvalidUIElement).is_element_dead());
    // A timeout must not be mistaken for a dead element: the app is busy,
    // and the element will very likely answer on a later pass.
    assert!(!AxError(Status::CannotComplete).is_element_dead());
}

#[test]
fn absent_attributes_are_not_errors() {
    assert_eq!(classify::<u8>(Status::AttributeUnsupported, None), Ok(None));
    assert_eq!(classify::<u8>(Status::NoValue, None), Ok(None));
    assert_eq!(classify(Status::Success, Some(1u8)), Ok(Some(1)));
    assert_eq!(
        classify::<u8>(Status::CannotComplete, None),
        Err(AxError(Status::CannotComplete)),
        "a timeout is a real failure the caller may want to report"
    );
}

#[test]
fn a_negative_range_is_taken_for_nothing() {
    assert_eq!(as_range(3, 4), Some((3, 4)));
    assert_eq!(as_range(-1, 4), Some((0, 4)));
    assert_eq!(as_range(2, -4), Some((2, 0)));
}

// ---------------------------------------------------------------- elements

fn key(n: i32) -> ElementKey {
    ElementKey::new(n, 0)
}

#[test]
fn two_references_to_one_element_are_one_key() {
    let a = ElementKey::new(0, 5);
    let b = ElementKey::new(0, 5);
    assert_eq!(a, b, "separately created references to the same element compare equal");

    let mut map = NodeIdMap::new();
    let first = map.id_for(a);
    assert_eq!(map.id_for(b), first, "so they get the same node id");
    assert_eq!(map.len(), 1, "and only one entry");
}

#[test]
fn the_same_element_under_a_different_pid_is_a_different_key() {
    // Guards the reason pid is in the key at all: element numbers are only
    // unique within a process, and this source mirrors every app at once.
    let a = ElementKey::new(101, 5);
    let b = ElementKey::new(202, 5);
    assert_ne!(a, b);

    let mut map = NodeIdMap::new();
    assert_ne!(map.id_for(a), map.id_for(b));
    assert_eq!(map.len(), 2);
}

#[test]
fn ids_are_stable_and_never_reused() {
    let mut map = NodeIdMap::new();
    let keys: Vec<ElementKey> = (0..4).map(key).collect();
    let first: Vec<NodeId> = keys.iter().map(|k| map.id_for(*k)).collect();
    let again: Vec<NodeId> = keys.iter().map(|k| map.id_for(*k)).collect();
    assert_eq!(first, again, "a re-walk reuses ids for surviving elements");

    // A newly seen element takes a fresh id, never one previously handed
    // out — a stale id on the consumer must not come to mean another node.
    let fresh = map.id_for(key(99));
    assert!(!first.contains(&fresh));
}

#[test]
fn an_id_resolves_back_to_its_element() {
    // An action names a node id; without this the executor has nothing to
    // perform against.
    let mut map = NodeIdMap::new();
    let id = map.id_for(key(7));
    assert_eq!(map.key_for(id), Some(key(7)));
    assert_eq!(map.key_for(NodeId(9999)), None);
}

#[test]
fn run_ids_are_stable_and_never_collide_with_element_ids() {
    let mut map = NodeIdMap::new();
    let parent = map.id_for(key(1));
    let first = map.run_id_for(parent, 0);
    let second = map.run_id_for(parent, 1);
    assert_ne!(first, second);
    assert_ne!(first, parent, "runs share the element counter, so cannot collide");
    // Stable across walks, or every keystroke would replace the paragraph.
    assert_eq!(map.run_id_for(parent, 0), first);
    assert_eq!(map.run_id_for(parent, 1), second);
    // A run of a different parent is a different run.
    let other = map.id_for(key(2));
    assert_ne!(map.run_id_for(other, 0), first);
    assert_eq!(map.key_for(first), None, "a run is no element");
}

#[test]
fn get_does_not_allocate_an_id() {
    let mut map = NodeIdMap::new();
    assert_eq!(map.get(key(1)), None);
    assert!(map.is_empty(), "a miss must not create an entry");
    let id = map.id_for(key(1));
    assert_eq!(map.get(key(1)), Some(id));
}

// ---------------------------------------------------------------- text

/// The runs of a text whose container has the id 0, so that they get ids from 1.
fn runs_of(text: &str, wraps: &[bool]) -> (Vec<(NodeId, Node)>, Vec<RunLayout>) {
    let mut ids = NodeIdMap::new();
    let parent = ids.id_for(key(1));
    build_runs(text, wraps, parent, &mut ids)
}

fn layout_of(text: &str) -> Vec<RunLayout> {
    runs_of(text, &[]).1
}

#[test]
fn runs_are_lines_and_keep_their_newline() {
    assert_eq!(split_runs("one\ntwo"), vec!["one\n", "two"]);
    assert_eq!(split_runs("single"), vec!["single"]);
}

#[test]
fn a_caret_at_the_very_end_always_has_a_run_to_sit_in() {
    // Text ending in a newline, and empty text, are the two cases where a
    // naive split leaves the caret homeless.
    assert_eq!(split_runs("line\n"), vec!["line\n", ""]);
    assert_eq!(split_runs(""), vec![""]);
}

#[test]
fn character_lengths_are_utf8_bytes_per_character() {
    assert_eq!(character_lengths("abc"), vec![1, 1, 1]);
    // Not UTF-16 units: an emoji is one character of four bytes.
    assert_eq!(character_lengths("a😀b"), vec![1, 4, 1]);
    assert_eq!(character_lengths("日本"), vec![3, 3]);
}

/// **The conversion that misplaces a caret if it is wrong.** AX counts
/// UTF-16 units, AccessKit counts characters, and an emoji is two of the
/// former and one of the latter.
#[test]
fn utf16_offsets_convert_across_the_astral_planes() {
    // "a😀b": UTF-16 is [a][😀 hi][😀 lo][b], characters are [a][😀][b].
    let text = "a😀b";
    assert_eq!(utf16_to_char_index(text, 0), 0);
    assert_eq!(utf16_to_char_index(text, 1), 1, "start of the emoji");
    assert_eq!(utf16_to_char_index(text, 3), 2, "after the surrogate pair");
    assert_eq!(utf16_to_char_index(text, 4), 3, "end of the text");

    // BMP multi-byte characters are one UTF-16 unit each, so offsets track.
    let cjk = "日本語";
    assert_eq!(utf16_to_char_index(cjk, 2), 2);
    assert_eq!(utf16_to_char_index(cjk, 3), 3);

    // Past the end clamps rather than failing: the two sides can disagree
    // for an instant when text changes between reads.
    assert_eq!(utf16_to_char_index(text, 999), 3);
}

#[test]
fn a_position_resolves_into_the_right_run() {
    // "ab\ncd" is runs ["ab\n", "cd"], characters 0..3 and 3..5.
    let layout = layout_of("ab\ncd");
    assert_eq!(layout.len(), 2);
    let first = layout[0].id;
    let second = layout[1].id;

    assert_eq!(position(&layout, 0).unwrap(), TextPosition { node: first, character_index: 0 });
    assert_eq!(position(&layout, 2).unwrap(), TextPosition { node: first, character_index: 2 });
    // The boundary belongs to the next line, which is where the caret goes
    // when it moves off the end of one.
    assert_eq!(position(&layout, 3).unwrap(), TextPosition { node: second, character_index: 0 });
    // Past the end sits at the end of the last run.
    assert_eq!(position(&layout, 99).unwrap(), TextPosition { node: second, character_index: 2 });
}

#[test]
fn a_caret_is_a_degenerate_selection() {
    let layout = layout_of("hello");
    let caret = selection("hello", &layout, 2, 0).unwrap();
    assert_eq!(caret.anchor, caret.focus, "a caret has no extent");
    assert_eq!(caret.focus.character_index, 2);
}

#[test]
fn a_real_selection_keeps_its_direction() {
    let layout = layout_of("hello world");
    let selected = selection("hello world", &layout, 6, 5).unwrap();
    assert_eq!(selected.anchor.character_index, 6);
    assert_eq!(selected.focus.character_index, 11);
}

#[test]
fn a_selection_measured_in_utf16_lands_on_the_right_characters() {
    // The case that would silently break: selecting "b" after an emoji.
    let text = "a😀b";
    let layout = layout_of(text);
    // UTF-16: a=0, emoji=1..3, b=3. Selecting b is start 3, length 1.
    let selected = selection(text, &layout, 3, 1).unwrap();
    assert_eq!(selected.anchor.character_index, 2, "b is the third character");
    assert_eq!(selected.focus.character_index, 3);
}

#[test]
fn runs_carry_their_text_and_per_character_data() {
    let (nodes, layout) = runs_of("hi there", &[]);
    assert_eq!(nodes.len(), 1);
    let (id, node) = &nodes[0];
    assert_eq!(*id, NodeId(1));
    assert_eq!(node.props.role, Role::TextRun);
    assert_eq!(node.value.as_deref(), Some("hi there"));
    assert_eq!(node.character_lengths.len(), 8);
    assert_eq!(node.word_starts, &[0, 3], "two words");
    assert_eq!(layout[0].len, 8);
}

/// **Regression.** Every range query returned zero rectangles because this
/// one property was missing, while bounds, positions and widths were all
/// computed and delivered. `accesskit_consumer` requires all four.
#[test]
fn every_run_declares_a_text_direction() {
    for wraps in [&[][..], &[false, false][..]] {
        let (nodes, _) = runs_of("ab", wraps);
        assert_eq!(
            nodes[0].1.props.text_direction,
            Some(TextDirection::LeftToRight),
            "a run without a direction yields no rectangles at all"
        );
    }
}

#[test]
fn hard_newlines_still_split_without_geometry() {
    let (nodes, _) = runs_of("one\ntwo", &[]);
    assert_eq!(nodes.len(), 2);
    assert_eq!(nodes[0].1.value.as_deref(), Some("one\n"));
    assert_eq!(nodes[1].1.value.as_deref(), Some("two"));
}

#[test]
fn an_empty_field_and_a_trailing_newline_keep_a_run_for_the_caret() {
    let (nodes, layout) = runs_of("", &[]);
    assert_eq!(nodes.len(), 1);
    assert_eq!(layout[0].len, 0);

    let (nodes, _) = runs_of("line\n", &[]);
    assert_eq!(nodes.len(), 2, "the caret past the newline needs a run");
    assert_eq!(nodes[1].1.value.as_deref(), Some(""));
}

#[test]
fn text_without_geometry_still_carries_its_content() {
    // Over the cap, or an unanswering element, must cost a reader nothing
    // — only a magnifier.
    let (nodes, _) = runs_of("hello", &[]);
    assert_eq!(nodes[0].1.value.as_deref(), Some("hello"));
    assert!(nodes[0].1.props.bounds.is_none());
    assert!(nodes[0].1.character_positions.is_none());
}

#[test]
fn utf16_offsets_round_trip_through_character_indices() {
    // The geometry reads walk the text in UTF-16 units, so both
    // conversions must agree or every rectangle after an emoji is wrong.
    for text in ["abc", "a\u{1F600}b", "\u{65E5}\u{672C}\u{8A9E}"] {
        for index in 0..=text.chars().count() {
            let utf16 = char_to_utf16_offset(text, index);
            assert_eq!(utf16_to_char_index(text, utf16), index, "{text:?} at {index}");
        }
    }
}

#[test]
fn overlong_text_is_clamped_on_a_character_boundary() {
    let long = "😀".repeat(MAX_TEXT_CHARS + 10);
    let clamped = clamp(&long);
    assert_eq!(clamped.chars().count(), MAX_TEXT_CHARS);
    // Still valid UTF-8, i.e. not cut through a multi-byte character.
    assert!(clamped.chars().all(|c| c == '😀'));
}

#[test]
fn word_starts_degrade_rather_than_truncate() {
    // AccessKit stores these as u8, so a run with a word starting past 255
    // has no usable word data — reporting none is honest, reporting wrong
    // offsets is not.
    let long = format!("{}word", " ".repeat(300));
    assert!(word_starts(&long).is_empty());
    assert_eq!(word_starts("one two"), vec![0, 4]);
}

// ---------------------------------------------------------------- nodes

fn node(n: i32, role: &str, children: Vec<ElementKey>) -> AxNode {
    AxNode {
        key: key(n),
        role: role.to_owned(),
        subrole: None,
        title: String::new(),
        description: String::new(),
        value: None,
        states: NodeStates::default(),
        actions: Vec::new(),
        children,
        selected_range: None,
        name_from_contents: None,
        wraps: Vec::new(),
    }
}

fn single(role: &str) -> AxNode {
    node(0, role, Vec::new())
}

/// **The invariant the whole delta path rests on.** Two builds of an
/// unchanged node must be identical, or every refresh emits a spurious
/// update.
#[test]
fn rebuilding_an_unchanged_node_produces_an_identical_node() {
    let mut n = single("AXButton");
    n.title = "Save".into();
    n.states.enabled = Some(true);
    n.states.focusable = true;
    assert_eq!(build_container(&n), build_container(&n));
}

/// Typing must change the node, or the delta reducer correctly concludes
/// nothing happened and the change never reaches the consumer. This is the
/// test for the gap that made text editing invisible.
#[test]
fn a_text_field_carries_its_contents() {
    let mut n = single("AXTextArea");
    assert_eq!(n.accesskit_role(), Role::MultilineTextInput);
    assert_eq!(build_container(&n).value, None);

    n.value = text_value("hello");
    assert_eq!(build_container(&n).value.as_deref(), Some("hello"));

    n.value = text_value("hello world");
    assert_eq!(build_container(&n).value.as_deref(), Some("hello world"));
}

#[test]
fn a_checkbox_reads_its_value_as_a_toggle_including_mixed() {
    let mut n = single("AXCheckBox");
    n.value = number_value(0.0);
    assert_eq!(build_container(&n).props.toggled, Some(Toggled::False));
    n.value = number_value(1.0);
    assert_eq!(build_container(&n).props.toggled, Some(Toggled::True));
    // AppKit uses 2 for the partial state a tri-state checkbox shows.
    n.value = number_value(2.0);
    assert_eq!(build_container(&n).props.toggled, Some(Toggled::Mixed));
}

#[test]
fn a_slider_reads_its_value_as_a_number_not_a_string() {
    let mut n = single("AXSlider");
    n.value = number_value(0.42);
    let built = build_container(&n);
    assert_eq!(built.props.numeric_value, Some(Float64(0.42f64.to_bits())));
    assert_eq!(built.value, None, "a slider's value is not text");
}

#[test]
fn a_value_on_a_role_that_has_no_use_for_one_is_ignored() {
    // Plenty of elements carry AXValue with something meaningless in it;
    // putting a string on a Button would be worse than dropping it.
    let mut n = single("AXButton");
    n.value = text_value("nonsense");
    let built = build_container(&n);
    assert_eq!(built.value, None);
    assert_eq!(built.props.numeric_value, None);
}

#[test]
fn a_label_carries_its_text_as_a_value() {
    // A label's text is its content, not a name pointing elsewhere; the
    // AT-SPI mapping makes the same distinction.
    let mut n = single("AXStaticText");
    n.title = "Total".into();
    let built = build_container(&n);
    assert_eq!(built.props.role, Role::Label);
    assert_eq!(built.value.as_deref(), Some("Total"));
    assert_eq!(built.label, None);
}

/// **Regression.** `AXStaticText` keeps its text in `AXValue`, not
/// `AXTitle`. Reading only the title left Calculator's display and most of
/// System Settings' sidebar empty, and was a large part of why 65% of
/// mirrored elements had no name at all.
#[test]
fn a_static_text_takes_its_content_from_the_value() {
    let mut n = single("AXStaticText");
    assert_eq!(build_container(&n).value, None);
    n.value = text_value("1,234");
    assert_eq!(build_container(&n).value.as_deref(), Some("1,234"));

    // A title still wins where one exists.
    n.title = "Total".into();
    assert_eq!(build_container(&n).value.as_deref(), Some("Total"));
}

/// **Regression.** Executing an action and *declaring* it are separate, and
/// only the executor had landed: every node advertised `Focus` and nothing
/// else, so AccessKit's Windows adapter offered `InvokePattern` on none of
/// the 89 buttons in a live mirror.
#[test]
fn an_element_declares_the_actions_it_can_actually_perform() {
    let mut n = single("AXButton");
    assert!(!build_container(&n).supports_action(Action::Click));

    n.actions = vec!["AXPress".into()];
    assert!(build_container(&n).supports_action(Action::Click));

    // A menu button opens rather than activates.
    n.actions = vec!["AXShowMenu".into()];
    let built = build_container(&n);
    assert!(built.supports_action(Action::Expand));
    assert!(built.supports_action(Action::Collapse));

    n.actions = vec!["AXIncrement".into(), "AXDecrement".into()];
    let built = build_container(&n);
    assert!(built.supports_action(Action::Increment));
    assert!(built.supports_action(Action::Decrement));

    // Nothing is claimed that the element did not report.
    n.actions = vec!["AXSomethingElse".into()];
    assert!(!build_container(&n).supports_action(Action::Click));
}

#[test]
fn a_writable_value_advertises_set_value() {
    let mut n = single("AXTextArea");
    assert!(!build_container(&n).supports_action(Action::SetValue));
    n.states.value_settable = true;
    assert!(build_container(&n).supports_action(Action::SetValue));
}

/// **Regression.** All 40 System Settings sidebar rows announced nothing: a
/// `TreeItem` holds a `DataItem` holds a `Text`, and nothing bridged them.
#[test]
fn a_selectable_row_can_take_its_name_from_its_contents() {
    let mut n = single("AXRow");
    assert_eq!(n.name(), "", "nothing to take it from yet");
    n.name_from_contents = Some("Software-update beschikbaar".into());
    assert_eq!(n.name(), "Software-update beschikbaar");
    assert_eq!(
        build_container(&n).label.as_deref(),
        Some("Software-update beschikbaar")
    );

    // A real name always wins over a derived one.
    n.title = "Updates".into();
    assert_eq!(n.name(), "Updates");
}

/// Containers legitimately have no name of their own, and concatenating
/// their contents into one would be worse than silence.
#[test]
fn only_content_bearing_roles_take_a_name_from_within() {
    assert!(takes_name_from_contents(Role::TreeItem));
    assert!(takes_name_from_contents(Role::Row));
    assert!(takes_name_from_contents(Role::Button));
    assert!(!takes_name_from_contents(Role::List));
    assert!(!takes_name_from_contents(Role::Toolbar));
    assert!(!takes_name_from_contents(Role::GenericContainer));
    assert!(!takes_name_from_contents(Role::Window));
}

#[test]
fn a_name_falls_back_from_title_to_description() {
    // 29% of elements carry a title and 54% a description, so neither
    // alone names the tree.
    let mut n = single("AXButton");
    n.description = "Close".into();
    assert_eq!(n.name(), "Close");
    assert_eq!(build_container(&n).label.as_deref(), Some("Close"));

    n.title = "Sluiten".into();
    assert_eq!(n.name(), "Sluiten", "a title wins when present");
}

#[test]
fn a_description_equal_to_the_name_is_not_repeated() {
    let mut n = single("AXButton");
    n.title = "Close".into();
    n.description = "Close".into();
    assert_eq!(build_container(&n).description, None);
}

#[test]
fn absence_of_enabled_is_not_disablement() {
    // 39% of real elements never report AXEnabled. Announcing them all as
    // disabled would be much worse than saying nothing.
    let mut n = single("AXButton");
    assert_eq!(n.states.enabled, None);
    assert!(!build_container(&n).props.disabled);

    n.states.enabled = Some(true);
    assert!(!build_container(&n).props.disabled);
    n.states.enabled = Some(false);
    assert!(build_container(&n).props.disabled);
}

#[test]
fn focusable_comes_from_settability_and_offers_the_action() {
    let mut n = single("AXButton");
    assert!(!build_container(&n).supports_action(Action::Focus));
    n.states.focusable = true;
    assert!(build_container(&n).supports_action(Action::Focus));
}

#[test]
fn a_named_group_is_promoted_but_an_unnamed_one_stays_transparent() {
    let mut n = single("AXGroup");
    assert_eq!(n.accesskit_role(), Role::GenericContainer);
    n.title = "Formatting".into();
    assert_eq!(n.accesskit_role(), Role::Group);
}

#[test]
fn an_element_is_flattened_from_one_batch_of_answers() {
    let mut values: Vec<Option<AxValue>> = (0..9).map(|_| None).collect();
    values[I_ROLE] = text_value("AXButton");
    values[I_TITLE] = text_value("Go");
    values[I_ENABLED] = number_value(0.0);
    values[I_FOCUSED] = Some(AxValue::Flag(true));
    let flat = flatten(
        key(3),
        ElementReads {
            values,
            focusable: Some(true),
            value_settable: None,
            actions: Some(vec!["AXPress".into()]),
            children: None,
        },
    );
    assert_eq!(flat.key, key(3));
    assert_eq!(flat.role, "AXButton");
    assert_eq!(flat.title, "Go");
    assert_eq!(flat.states.enabled, Some(false));
    assert!(flat.states.focused && flat.states.focusable && !flat.states.value_settable);
    assert_eq!(flat.actions, vec!["AXPress"]);
    assert!(flat.children.is_empty());
}

#[test]
fn a_name_is_searched_for_among_siblings_before_it_is_searched_deeper() {
    let read = |k: ElementKey| -> Option<String> {
        match k.pid() {
            11 => Some("deep".to_owned()),
            2 => Some("near".to_owned()),
            _ => None,
        }
    };
    let list = |k: ElementKey| -> Vec<ElementKey> {
        if k.pid() == 1 { vec![key(11)] } else { Vec::new() }
    };
    let found = text_within(&[key(1), key(2)], &read, &list, NAME_SEARCH_DEPTH);
    assert_eq!(found.as_deref(), Some("near"));
    let found = text_within(&[key(1)], &read, &list, NAME_SEARCH_DEPTH);
    assert_eq!(found.as_deref(), Some("deep"));
    assert_eq!(text_within(&[key(1)], &read, &list, 0), None);
    let values = vec![text_value("AXStaticText"), None, text_value("said")];
    assert_eq!(static_text(&values).as_deref(), Some("said"));
    let values = vec![text_value("AXButton"), None, text_value("said")];
    assert_eq!(static_text(&values), None);
}

// ---------------------------------------------------------------- walks

fn window(n: i32, children: Vec<ElementKey>) -> AxNode {
    node(n, "AXWindow", children)
}

fn built<'a>(update: &'a TreeUpdate, ids: &NodeIdMap, n: i32) -> &'a Node {
    let id = ids.get(key(n)).unwrap();
    &update.nodes.iter().find(|(found, _)| *found == id).unwrap().1
}

#[test]
fn the_first_walked_node_is_the_root() {
    let nodes = [window(1, vec![key(2)]), node(2, "AXButton", vec![])];
    let mut ids = NodeIdMap::new();
    let update = build_window_update(&nodes, &mut ids).expect("a non-empty walk builds");
    let root = update.tree.as_ref().unwrap().root;
    assert_eq!(root, ids.get(key(1)).unwrap());
    assert_eq!(update.nodes.len(), 2);
}

#[test]
fn an_empty_walk_builds_nothing() {
    assert!(build_window_update(&[], &mut NodeIdMap::new()).is_none());
}

#[test]
fn ids_survive_a_re_walk_so_the_consumer_sees_a_delta() {
    // The pay-off of stable element identity: the same element keeps its
    // node id, so a re-walk is an update rather than a replacement.
    let nodes = [window(1, vec![key(2)]), node(2, "AXButton", vec![])];
    let mut ids = NodeIdMap::new();
    let first = build_window_update(&nodes, &mut ids).unwrap();
    let second = build_window_update(&nodes, &mut ids).unwrap();
    let first_ids: Vec<_> = first.nodes.iter().map(|(id, _)| *id).collect();
    let second_ids: Vec<_> = second.nodes.iter().map(|(id, _)| *id).collect();
    assert_eq!(first_ids, second_ids);
    assert_eq!(ids.len(), 2, "a re-walk allocates no new ids");
}

#[test]
fn a_child_the_walk_never_reached_is_not_emitted() {
    // A parent can name a child the walk skipped (unreadable, or past the
    // node cap). Emitting its id would dangle on the consumer.
    let nodes = [window(1, vec![key(2), key(99)]), node(2, "AXButton", vec![])];
    let mut ids = NodeIdMap::new();
    let update = build_window_update(&nodes, &mut ids).unwrap();
    let root = built(&update, &ids, 1);
    assert_eq!(root.children.len(), 1, "only the reached child is emitted");
    assert!(ids.get(key(99)).is_none(), "and the unreached one got no id");
}

#[test]
fn focus_lands_on_the_focused_node_and_defaults_to_the_root() {
    let mut nodes = [window(1, vec![key(2)]), node(2, "AXButton", vec![])];
    let mut ids = NodeIdMap::new();
    let update = build_window_update(&nodes, &mut ids).unwrap();
    assert_eq!(update.focus, ids.get(key(1)).unwrap(), "no focus falls back to the root");

    nodes[1].states.focused = true;
    let update = build_window_update(&nodes, &mut ids).unwrap();
    assert_eq!(update.focus, ids.get(key(2)).unwrap());
}

/// A window that lists the application element as a child must not emit it.
/// It is a cycle back to the root of everything, and `Role::Application`
/// inside a `Role::Window` means nothing to a consumer.
#[test]
fn the_application_element_is_never_part_of_a_window_subtree() {
    let nodes = [
        window(1, vec![key(2), key(3)]),
        node(2, "AXApplication", vec![]),
        node(3, "AXButton", vec![]),
    ];
    let mut ids = NodeIdMap::new();
    let update = build_window_update(&nodes[..1], &mut ids).unwrap();
    let root = built(&update, &ids, 1);
    assert!(
        root.children.is_empty(),
        "an unwalked application child contributes no id"
    );
    // And the role map would place it wrongly if it ever did get through.
    assert_eq!(nodes[1].accesskit_role(), Role::Application);
}

/// **Regression: this panicked the consumer.** macOS exposes a table cell
/// under both `AXRows` and `AXColumns`, so two parents claim it. AccessKit
/// requires a strict tree and aborts with "TreeUpdate includes duplicate
/// child" — taking down every other mirrored window with it.
#[test]
fn a_child_claimed_by_two_parents_is_emitted_under_only_one() {
    let cell = key(9);
    let nodes = [
        window(1, vec![key(2), key(3)]),
        // A row and a column, both listing the same cell.
        node(2, "AXRow", vec![cell]),
        node(3, "AXColumn", vec![cell]),
        node(9, "AXCell", vec![]),
    ];
    let mut ids = NodeIdMap::new();
    let update = build_window_update(&nodes, &mut ids).unwrap();
    let cell_id = ids.get(cell).unwrap();
    let claims = update
        .nodes
        .iter()
        .filter(|(_, node)| node.children.contains(&cell_id))
        .count();
    assert_eq!(claims, 1, "exactly one parent may list the cell");

    // The first parent in walk order keeps it — the row, which is also the
    // hierarchy a reader wants.
    let row = built(&update, &ids, 2);
    assert_eq!(row.children, &[cell_id]);
}

/// The same list naming a child twice is the other half of the live
/// failure: one parent had `children=[1796, 1796]`.
#[test]
fn a_parent_listing_one_child_twice_emits_it_once() {
    let child = key(2);
    let nodes = [window(1, vec![child, child]), node(2, "AXButton", vec![])];
    let mut ids = NodeIdMap::new();
    let update = build_window_update(&nodes, &mut ids).unwrap();
    assert_eq!(built(&update, &ids, 1).children.len(), 1);
}

/// The refresh path reads structure from `emitted_children`, so it must
/// apply the same rule — otherwise a refresh hands a node back the children
/// the walk had deliberately taken away, reintroducing the duplicate.
#[test]
fn emitted_children_applies_the_same_single_parent_rule() {
    let cell = key(9);
    let nodes = [
        window(1, vec![key(2), key(3)]),
        node(2, "AXRow", vec![cell]),
        node(3, "AXColumn", vec![cell]),
        node(9, "AXCell", vec![]),
    ];
    let children = emitted_children(&nodes);
    let claims = nodes
        .iter()
        .filter(|n| children.get(n.key).is_some_and(|kids| kids.contains(&cell)))
        .count();
    assert_eq!(claims, 1, "the refresh path must agree with the walk");
}

#[test]
fn emitted_children_records_only_reached_elements() {
    let nodes = [window(1, vec![key(2), key(99)]), node(2, "AXButton", vec![])];
    let children = emitted_children(&nodes);
    assert_eq!(children.get(key(1)).unwrap(), &vec![key(2)]);
    assert!(children.get(key(2)).unwrap().is_empty());
}

#[test]
fn a_walk_reads_each_element_once_and_leaves_the_application_out() {
    let mut walk = WindowWalk::new(key(1));
    let mut order = Vec::new();
    while let Some(next) = walk.next() {
        order.push(next.pid());
        walk.accept(match next.pid() {
            1 => window(1, vec![key(2), key(3), key(2)]),
            2 => node(2, "AXApplication", vec![key(4)]),
            n => node(n, "AXButton", vec![key(1)]),
        });
    }
    assert_eq!(order, vec![1, 2, 3], "nothing below the application is read");
    let walked: Vec<i32> = walk.finish().iter().map(|n| n.key.pid()).collect();
    assert_eq!(walked, vec![1, 3]);
}

#[test]
fn a_text_element_emits_its_runs_before_itself() {
    let mut field = node(2, "AXTextField", vec![]);
    field.value = text_value("hi\nyou");
    field.selected_range = Some((3, 0));
    let nodes = [window(1, vec![key(2)]), field];
    let mut ids = NodeIdMap::new();
    let update = build_window_update(&nodes, &mut ids).unwrap();
    assert_eq!(update.nodes.len(), 4);
    let container = built(&update, &ids, 2);
    assert_eq!(container.children.len(), 2);
    let caret = container.props.text_selection.unwrap();
    assert_eq!(caret.anchor.node, container.children[1]);
    assert_eq!(caret.anchor.character_index, 0);
}

#[test]
fn the_same_walk_builds_the_same_update() {
    let mut nodes = [
        window(1, vec![key(2), key(3)]),
        node(2, "AXTextArea", vec![]),
        node(3, "AXButton", vec![]),
    ];
    nodes[1].value = text_value("one\ntwo");
    nodes[1].selected_range = Some((1, 4));
    nodes[2].states.focused = true;
    let mut ids = NodeIdMap::new();
    let first = build_window_update(&nodes, &mut ids).unwrap();
    let given = ids.len();
    assert_eq!(build_window_update(&nodes, &mut ids).unwrap(), first);
    assert_eq!(ids.len(), given);

    // Another window in between takes ids of its own and changes nothing.
    let other = [window(7, vec![key(8)]), node(8, "AXButton", vec![])];
    build_window_update(&other, &mut ids).unwrap();
    assert_eq!(ids.len(), given + 2);
    assert_eq!(build_window_update(&nodes, &mut ids).unwrap(), first);
    assert_eq!(ids.len(), given + 2);
}

#[test]
fn utf16_offsets_keep_their_order_and_end_with_the_text() {
    let text = "a\u{1F600}b";
    let offsets: Vec<usize> = (0..6).map(|index| char_to_utf16_offset(text, index)).collect();
    assert_eq!(offsets, vec![0, 1, 3, 4, 4, 4]);
    assert_eq!(char_to_utf16_offset(text, usize::MAX), 4);
    let indices: Vec<usize> = (0..6).map(|offset| utf16_to_char_index(text, offset)).collect();
    assert!(indices.windows(2).all(|pair| pair[0] <= pair[1]));
    assert_eq!(indices[4..], [3, 3]);
}
