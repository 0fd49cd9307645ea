//! From AT-SPI objects to trees.

use accesskit_consumer::FilterResult;
use accesskit_remote::atspi::ids::NodeIdMap;
use accesskit_remote::atspi::ids::PathSet;
use accesskit_remote::atspi::mapping::WindowCache;
use accesskit_remote::atspi::node::has_text_caret;
use accesskit_remote::atspi::node::map_relation;
use accesskit_remote::atspi::node::map_role;
use accesskit_remote::atspi::node::node_states;
use accesskit_remote::atspi::node::parse_attributes;
use accesskit_remote::atspi::node::reads_text_runs;
use accesskit_remote::atspi::node::role_reads_attributes;
use accesskit_remote::atspi::node::role_reads_relations;
use accesskit_remote::atspi::node::role_reads_value;
use accesskit_remote::atspi::node::CellState;
use accesskit_remote::atspi::node::CharExtent;
use accesskit_remote::atspi::node::MirrorNode;
use accesskit_remote::atspi::node::NodeAttributes;
use accesskit_remote::atspi::node::Relation;
use accesskit_remote::atspi::node::RelationKind;
use accesskit_remote::atspi::node::TableState;
use accesskit_remote::atspi::node::TextState;
use accesskit_remote::atspi::node::ValueState;
use accesskit_remote::atspi::text::build_text_runs;
use accesskit_remote::atspi::text::character_lengths;
use accesskit_remote::atspi::text::clamp_text;
use accesskit_remote::atspi::text::split_runs;
use accesskit_remote::atspi::text::text_offset;
use accesskit_remote::atspi::text::text_position;
use accesskit_remote::atspi::text::text_selection;
use accesskit_remote::atspi::text::MAX_TEXT_CHARS;
use accesskit_remote::atspi::vocabulary::Interface;
use accesskit_remote::atspi::vocabulary::RelationType;
use accesskit_remote::atspi::vocabulary::Role;
use accesskit_remote::atspi::vocabulary::State;
use accesskit_remote::atspi::vocabulary::StateSet;
use accesskit_remote::atspi::window::build_window_update;
use accesskit_remote::atspi::window::emitted_children;
use accesskit_remote::atspi::window::merge_update;
use accesskit_remote::atspi::window::rebuild_text_node;
use accesskit_remote::atspi::window::refresh_node;
use accesskit_remote::atspi::window::splice_chain_update;
use accesskit_remote::atspi::window::SpliceResult;
use accesskit_remote::number::Float64;
use accesskit_remote::tree::Action;
use accesskit_remote::tree::HasPopup;
use accesskit_remote::tree::Invalid;
use accesskit_remote::tree::Node;
use accesskit_remote::tree::NodeId;
use accesskit_remote::tree::Orientation;
use accesskit_remote::tree::Role as A;
use accesskit_remote::tree::TextDirection;
use accesskit_remote::tree::TextPosition;
use accesskit_remote::tree::TextSelection;
use accesskit_remote::tree::Toggled;
use accesskit_remote::tree::Tree;
use accesskit_remote::tree::TreeUpdate;
use accesskit_remote::StringHashMap;
use std::collections::HashMap;
use std::collections::HashSet;

/// A node's properties by name.
trait Reads {
    fn role(&self) -> A;
    fn label(&self) -> Option<&str>;
    fn value(&self) -> Option<&str>;
    fn description(&self) -> Option<&str>;
    fn placeholder(&self) -> Option<&str>;
    fn children(&self) -> &[NodeId];
    fn labelled_by(&self) -> &[NodeId];
    fn controls(&self) -> &[NodeId];
    fn described_by(&self) -> &[NodeId];
    fn details(&self) -> &[NodeId];
    fn error_message(&self) -> Option<NodeId>;
    fn toggled(&self) -> Option<Toggled>;
    fn is_expanded(&self) -> Option<bool>;
    fn is_selected(&self) -> Option<bool>;
    fn has_popup(&self) -> Option<HasPopup>;
    fn is_hidden(&self) -> bool;
    fn is_disabled(&self) -> bool;
    fn is_read_only(&self) -> bool;
    fn is_required(&self) -> bool;
    fn is_busy(&self) -> bool;
    fn invalid(&self) -> Option<Invalid>;
    fn orientation(&self) -> Option<Orientation>;
    fn bounds(&self) -> Option<accesskit::Rect>;
    fn numeric_value(&self) -> Option<f64>;
    fn min_numeric_value(&self) -> Option<f64>;
    fn max_numeric_value(&self) -> Option<f64>;
    fn numeric_value_step(&self) -> Option<f64>;
    fn row_count(&self) -> Option<usize>;
    fn column_count(&self) -> Option<usize>;
    fn row_index(&self) -> Option<usize>;
    fn column_index(&self) -> Option<usize>;
    fn row_span(&self) -> Option<usize>;
    fn column_span(&self) -> Option<usize>;
    fn level(&self) -> Option<usize>;
    fn position_in_set(&self) -> Option<usize>;
    fn size_of_set(&self) -> Option<usize>;
    fn text_selection(&self) -> Option<&TextSelection>;
    fn text_direction(&self) -> Option<TextDirection>;
    fn character_lengths(&self) -> &[u8];
    fn word_starts(&self) -> &[u8];
    fn character_positions(&self) -> Option<Vec<f32>>;
    fn character_widths(&self) -> Option<Vec<f32>>;
    fn set_label(&mut self, label: &str);
}

fn measures(list: &Option<Vec<i64>>) -> Option<Vec<f32>> {
    list.as_ref().map(|list| list.iter().map(|n| *n as f32).collect())
}

fn number(value: Option<Float64>) -> Option<f64> {
    value.map(|bits| f64::from_bits(bits.0))
}

impl Reads for Node {
    fn role(&self) -> A {
        self.props.role
    }
    fn label(&self) -> Option<&str> {
        self.label.as_deref()
    }
    fn value(&self) -> Option<&str> {
        self.value.as_deref()
    }
    fn description(&self) -> Option<&str> {
        self.description.as_deref()
    }
    fn placeholder(&self) -> Option<&str> {
        self.placeholder.as_deref()
    }
    fn children(&self) -> &[NodeId] {
        &self.children
    }
    fn labelled_by(&self) -> &[NodeId] {
        &self.labelled_by
    }
    fn controls(&self) -> &[NodeId] {
        &self.controls
    }
    fn described_by(&self) -> &[NodeId] {
        &self.described_by
    }
    fn details(&self) -> &[NodeId] {
        &self.details
    }
    fn error_message(&self) -> Option<NodeId> {
        self.props.error_message
    }
    fn toggled(&self) -> Option<Toggled> {
        self.props.toggled
    }
    fn is_expanded(&self) -> Option<bool> {
        self.props.expanded
    }
    fn is_selected(&self) -> Option<bool> {
        self.props.selected
    }
    fn has_popup(&self) -> Option<HasPopup> {
        self.props.has_popup
    }
    fn is_hidden(&self) -> bool {
        self.props.hidden
    }
    fn is_disabled(&self) -> bool {
        self.props.disabled
    }
    fn is_read_only(&self) -> bool {
        self.props.read_only
    }
    fn is_required(&self) -> bool {
        self.props.required
    }
    fn is_busy(&self) -> bool {
        self.props.busy
    }
    fn invalid(&self) -> Option<Invalid> {
        self.props.invalid
    }
    fn orientation(&self) -> Option<Orientation> {
        self.props.orientation
    }
    fn bounds(&self) -> Option<accesskit::Rect> {
        self.props.bounds.map(|r| accesskit::Rect {
            x0: r.x0 as f64,
            y0: r.y0 as f64,
            x1: r.x1 as f64,
            y1: r.y1 as f64,
        })
    }
    fn numeric_value(&self) -> Option<f64> {
        number(self.props.numeric_value)
    }
    fn min_numeric_value(&self) -> Option<f64> {
        number(self.props.min_numeric_value)
    }
    fn max_numeric_value(&self) -> Option<f64> {
        number(self.props.max_numeric_value)
    }
    fn numeric_value_step(&self) -> Option<f64> {
        number(self.props.numeric_value_step)
    }
    fn row_count(&self) -> Option<usize> {
        self.props.row_count
    }
    fn column_count(&self) -> Option<usize> {
        self.props.column_count
    }
    fn row_index(&self) -> Option<usize> {
        self.props.row_index
    }
    fn column_index(&self) -> Option<usize> {
        self.props.column_index
    }
    fn row_span(&self) -> Option<usize> {
        self.props.row_span
    }
    fn column_span(&self) -> Option<usize> {
        self.props.column_span
    }
    fn level(&self) -> Option<usize> {
        self.props.level
    }
    fn position_in_set(&self) -> Option<usize> {
        self.props.position_in_set
    }
    fn size_of_set(&self) -> Option<usize> {
        self.props.size_of_set
    }
    fn text_selection(&self) -> Option<&TextSelection> {
        self.props.text_selection.as_ref()
    }
    fn text_direction(&self) -> Option<TextDirection> {
        self.props.text_direction
    }
    fn character_lengths(&self) -> &[u8] {
        &self.character_lengths
    }
    fn word_starts(&self) -> &[u8] {
        &self.word_starts
    }
    fn character_positions(&self) -> Option<Vec<f32>> {
        measures(&self.character_positions)
    }
    fn character_widths(&self) -> Option<Vec<f32>> {
        measures(&self.character_widths)
    }
    fn set_label(&mut self, label: &str) {
        self.label = Some(label.to_owned());
    }
}

fn value_state(current: f64, minimum: f64, maximum: f64, step: f64) -> ValueState {
    let bits = |number: f64| Float64(number.to_bits());
    ValueState {
        current: bits(current),
        minimum: bits(minimum),
        maximum: bits(maximum),
        step: bits(step),
    }
}

/// A node id, as a consumer knows it.
fn wire_id(id: NodeId) -> accesskit::NodeId {
    accesskit::NodeId(id.0)
}

fn wire_ids(ids: &[NodeId]) -> Vec<accesskit::NodeId> {
    ids.iter().map(|id| wire_id(*id)).collect()
}

/// A role, as a consumer knows it: both go by the same names.
fn wire_role(role: A) -> accesskit::Role {
    let name = format!("{role:?}");
    let mut letters = name.chars();
    let first = letters.next().unwrap().to_ascii_lowercase();
    let name: String = std::iter::once(first).chain(letters).collect();
    serde_json::from_value(serde_json::Value::String(name)).unwrap()
}

/// As much of a node as the consumer looks at here.
fn wire_node(node: &Node) -> accesskit::Node {
    let mut out = accesskit::Node::new(wire_role(node.role()));
    if let Some(label) = node.label() {
        out.set_label(label);
    }
    if let Some(value) = node.value() {
        out.set_value(value);
    }
    out.set_children(wire_ids(node.children()));
    if let Some(bounds) = node.bounds() {
        out.set_bounds(bounds);
    }
    if node.role() == A::TextRun {
        out.set_character_lengths(node.character_lengths());
        out.set_word_starts(node.word_starts());
    }
    if let Some(positions) = node.character_positions() {
        out.set_character_positions(positions);
    }
    if let Some(widths) = node.character_widths() {
        out.set_character_widths(widths);
    }
    if node.text_direction().is_some() {
        out.set_text_direction(accesskit::TextDirection::LeftToRight);
    }
    if let Some(selection) = node.text_selection() {
        let place = |position: TextPosition| accesskit::TextPosition {
            node: wire_id(position.node),
            character_index: position.character_index,
        };
        out.set_text_selection(accesskit::TextSelection {
            anchor: place(selection.anchor),
            focus: place(selection.focus),
        });
    }
    out
}

/// An update, as a consumer takes it.
fn wire(update: &TreeUpdate) -> accesskit::TreeUpdate {
    accesskit::TreeUpdate {
        nodes: update
            .nodes
            .iter()
            .map(|(id, node)| (wire_id(*id), wire_node(node)))
            .collect(),
        tree: update.tree.as_ref().map(|tree| accesskit::Tree::new(wire_id(tree.root))),
        tree_id: accesskit::TreeId::ROOT,
        focus: wire_id(update.focus),
    }
}


struct NoOpChanges;

impl accesskit_consumer::TreeChangeHandler for NoOpChanges {
    fn node_added(&mut self, _: &accesskit_consumer::Node) {}
    fn node_updated(&mut self, _: &accesskit_consumer::Node, _: &accesskit_consumer::Node) {}
    fn focus_moved(
        &mut self,
        _: Option<&accesskit_consumer::Node>,
        _: Option<&accesskit_consumer::Node>,
    ) {}
    fn node_removed(&mut self, _: &accesskit_consumer::Node) {}
}

fn leaf(path: &str, role: Role, name: &str) -> MirrorNode {
    MirrorNode {
        path: path.to_owned(),
        role,
        name: name.to_owned(),
        ..Default::default()
    }
}

fn build(nodes: &[MirrorNode], ids: &mut NodeIdMap) -> TreeUpdate {
    build_window_update(nodes, ids, &mut WindowCache::default())
}

#[test]
fn node_id_map_is_stable_and_sequential() {
    let mut ids = NodeIdMap::new();
    let a = ids.id_for("/a");
    let b = ids.id_for("/b");
    assert_eq!(a, NodeId(0));
    assert_eq!(b, NodeId(1));
    assert_eq!(ids.id_for("/a"), a, "same path reuses its id");
    assert_eq!(ids.get("/b"), Some(b));
    assert_eq!(ids.get("/missing"), None);
}

#[test]
fn window_cache_holds_exactly_the_emitted_containers() {
    let mut root = leaf("/win", Role::Frame, "w");
    root.children = vec!["/a".into(), "/b".into()];
    let a = leaf("/a", Role::Button, "A");
    let b = leaf("/b", Role::Label, "B");

    let mut ids = NodeIdMap::new();
    let mut cache = WindowCache::default();
    let update = build_window_update(&[root, a.clone(), b], &mut ids, &mut cache);

    let emitted: HashMap<NodeId, Node> = update.nodes.iter().cloned().collect();
    for path in ["/win", "/a", "/b"] {
        let id = ids.get(path).expect("id allocated");
        assert_eq!(
            cache.nodes.get(path),
            emitted.get(&id),
            "cache holds the node emitted for {path}",
        );
    }
    assert_eq!(cache.nodes.len(), 3);

    let mut shrunk = leaf("/win", Role::Frame, "w");
    shrunk.children = vec!["/a".into()];
    build_window_update(&[shrunk, a], &mut ids, &mut cache);
    assert_eq!(cache.nodes.len(), 2);
    assert!(cache.nodes.contains_key("/a"));
    assert!(!cache.nodes.contains_key("/b"), "vanished path is pruned");
}

#[test]
fn map_role_covers_common_roles_with_container_fallback() {
    assert_eq!(map_role(Role::Frame), A::Window);
    assert_eq!(map_role(Role::Label), A::Label);
    assert_eq!(map_role(Role::Button), A::Button);
    assert_eq!(map_role(Role::PageTab), A::Tab);
    assert_eq!(map_role(Role::Viewport), A::GenericContainer);
}

#[test]
fn map_role_covers_menu_roles() {
    assert_eq!(map_role(Role::MenuBar), A::MenuBar);
    assert_eq!(map_role(Role::Menu), A::Menu);
    assert_eq!(map_role(Role::MenuItem), A::MenuItem);
    assert_eq!(map_role(Role::CheckMenuItem), A::MenuItemCheckBox);
    assert_eq!(map_role(Role::RadioMenuItem), A::MenuItemRadio);
    // Previously fell through to GenericContainer, losing menu semantics.
    assert_eq!(map_role(Role::PopupMenu), A::Menu);
    assert_eq!(map_role(Role::PushButtonMenu), A::Button);
}

#[test]
fn map_role_covers_terminal_and_document() {
    assert_eq!(map_role(Role::Terminal), A::Terminal);
    for role in [
        Role::DocumentFrame,
        Role::DocumentText,
        Role::DocumentWeb,
        Role::DocumentEmail,
        Role::DocumentSpreadsheet,
        Role::DocumentPresentation,
    ] {
        assert_eq!(map_role(role), A::Document, "{role:?}");
    }
}

#[test]
fn map_role_covers_the_gtk4_and_libreoffice_role_surface() {
    for (atspi, expected) in [
        (Role::Separator, A::Splitter),
        (Role::LevelBar, A::Meter),
        (Role::TableRow, A::Row),
        (Role::RowHeader, A::RowHeader),
        (Role::TableRowHeader, A::RowHeader),
        (Role::ColumnHeader, A::ColumnHeader),
        (Role::TableColumnHeader, A::ColumnHeader),
        (Role::TreeTable, A::TreeGrid),
        (Role::ToolTip, A::Tooltip),
        (Role::Static, A::Label),
        (Role::Notification, A::Alert),
        (Role::InfoBar, A::Alert),
        (Role::TitleBar, A::TitleBar),
        (Role::Header, A::Header),
        (Role::Footer, A::Footer),
        (Role::Canvas, A::Canvas),
        (Role::DrawingArea, A::Canvas),
        (Role::Audio, A::Audio),
        (Role::Video, A::Video),
        (Role::Editbar, A::TextInput),
        (Role::Article, A::Article),
        (Role::BlockQuote, A::Blockquote),
        (Role::Caption, A::Caption),
        (Role::Comment, A::Comment),
        (Role::Form, A::Form),
        (Role::Landmark, A::Region),
        (Role::Log, A::Log),
        (Role::Marquee, A::Marquee),
        (Role::Math, A::Math),
        (Role::MathFraction, A::Math),
        (Role::MathRoot, A::Math),
        (Role::Footnote, A::DocFootnote),
        (Role::Timer, A::Timer),
        (Role::Definition, A::Definition),
        (Role::DescriptionList, A::DescriptionList),
        (Role::DescriptionTerm, A::Term),
        (Role::DescriptionValue, A::Definition),
        (Role::Mark, A::Mark),
        (Role::Suggestion, A::Suggestion),
        (Role::ContentDeletion, A::ContentDeletion),
        (Role::ContentInsertion, A::ContentInsertion),
        (Role::Embedded, A::EmbeddedObject),
        (Role::ImageMap, A::Image),
        (Role::Dial, A::Slider),
        (Role::Rating, A::Meter),
        (Role::CHART, A::Figure),
        (Role::Autocomplete, A::ListBox),
        (Role::TearoffMenuItem, A::MenuItem),
        (Role::FileChooser, A::Dialog),
        (Role::FontChooser, A::Dialog),
        (Role::ColorChooser, A::Dialog),
        (Role::DateEditor, A::DateInput),
    ] {
        assert_eq!(map_role(atspi), expected, "{atspi:?}");
    }
}

#[test]
fn structural_roles_stay_filter_transparent() {
    // These carry no semantics a screen reader can use; mapping them to real
    // roles would surface every layout box in the client tree.
    for role in [
        Role::Panel,
        Role::Filler,
        Role::Grouping,
        Role::OptionPane,
        Role::RootPane,
        Role::LayeredPane,
        Role::GlassPane,
        Role::Viewport,
        Role::SplitPane,
        Role::Page,
        Role::Ruler,
        Role::RedundantObject,
        Role::Extended,
        Role::Unknown,
        Role::Invalid,
    ] {
        assert_eq!(map_role(role), A::GenericContainer, "{role:?}");
    }
}

#[test]
fn consumer_keeps_unnamed_containers_out_of_the_tree() {
    let mut root = leaf("/win", Role::Frame, "w");
    root.children = vec!["/plain".into(), "/named".into()];
    let mut plain = leaf("/plain", Role::Grouping, "");
    plain.children = vec!["/plain/b".into()];
    let mut named = leaf("/named", Role::Grouping, "Formatting");
    named.children = vec!["/named/b".into()];
    let one = leaf("/plain/b", Role::Button, "One");
    let two = leaf("/named/b", Role::Button, "Two");

    let mut ids = NodeIdMap::new();
    let update = build(&[root, plain, named, one, two], &mut ids);
    let tree = accesskit_consumer::Tree::new(wire(&update), false);
    let state = tree.state();
    let node = |path: &str| {
        state
            .node_by_tree_local_id(wire_id(ids.get(path).unwrap()), accesskit::TreeId::ROOT)
            .expect("node present in consumer tree")
    };

    assert_eq!(
        accesskit_consumer::common_filter(&node("/plain")),
        FilterResult::ExcludeNode,
        "an unnamed layout container stays transparent",
    );
    assert_eq!(
        accesskit_consumer::common_filter(&node("/named")),
        FilterResult::Include,
        "a named group carries semantics worth surfacing",
    );
}

fn states(flags: &[State]) -> StateSet {
    let mut set = StateSet::empty();
    for flag in flags {
        set.insert(*flag);
    }
    set
}

#[test]
fn node_states_distills_toggle_expand_select_popup() {
    // Checkable/checked/indeterminate → Toggled.
    assert_eq!(
        node_states(&states(&[State::Focusable, State::Checkable, State::Checked])).toggled,
        Some(Toggled::True),
    );
    assert_eq!(
        node_states(&states(&[State::Checkable, State::Indeterminate])).toggled,
        Some(Toggled::Mixed),
    );
    assert_eq!(
        node_states(&states(&[State::Checkable])).toggled,
        Some(Toggled::False),
    );
    // A pressed toggle button reports Pressed, not Checkable.
    assert_eq!(node_states(&states(&[State::Pressed])).toggled, Some(Toggled::True));

    // Expandable / Collapsed / Expanded → expanded flag.
    assert_eq!(node_states(&states(&[State::Expandable])).expanded, Some(false));
    assert_eq!(
        node_states(&states(&[State::Expandable, State::Expanded])).expanded,
        Some(true),
    );

    // Selectable / Selected → selected flag.
    assert_eq!(node_states(&states(&[State::Selectable])).selected, Some(false));
    assert_eq!(
        node_states(&states(&[State::Selectable, State::Selected])).selected,
        Some(true),
    );

    // Plain nodes leave every applicable-state as absent.
    let plain = node_states(&states(&[State::Showing]));
    assert_eq!(plain.toggled, None);
    assert_eq!(plain.expanded, None);
    assert_eq!(plain.selected, None);
    assert!(!plain.has_popup);

    assert!(node_states(&states(&[State::HasPopup])).has_popup);
    assert!(node_states(&states(&[State::Focusable])).focusable);
    assert!(node_states(&states(&[State::Focused])).focused);
}

#[test]
fn node_states_distills_the_full_forwarded_state_set() {
    // GTK4 never emits State::Enabled (it sets only Sensitive, and omits
    // that when the widget is explicitly disabled); at-spi2-atk emits both.
    // Either one therefore means "not disabled".
    assert!(node_states(&states(&[State::Sensitive])).sensitive);
    assert!(node_states(&states(&[State::Enabled])).sensitive);
    assert!(!node_states(&states(&[State::Focusable])).sensitive);

    assert!(node_states(&states(&[State::ReadOnly])).read_only);
    assert!(node_states(&states(&[State::Required])).required);
    assert!(node_states(&states(&[State::InvalidEntry])).invalid);
    assert!(node_states(&states(&[State::Modal])).modal);
    assert!(node_states(&states(&[State::Multiselectable])).multiselectable);
    assert!(node_states(&states(&[State::Busy])).busy);

    assert_eq!(
        node_states(&states(&[State::Horizontal])).orientation,
        Some(Orientation::Horizontal),
    );
    assert_eq!(
        node_states(&states(&[State::Vertical])).orientation,
        Some(Orientation::Vertical),
    );
    assert_eq!(
        node_states(&states(&[State::Horizontal, State::Vertical])).orientation,
        None,
        "a contradictory orientation is dropped rather than guessed",
    );
    assert_eq!(node_states(&states(&[])).orientation, None);
}

#[test]
fn build_node_forwards_the_new_states() {
    let mut root = leaf("/win", Role::Frame, "w");
    root.children = vec!["/off".into(), "/entry".into(), "/bar".into()];

    // Focusable but not sensitive: a genuinely disabled control.
    let mut off = leaf("/off", Role::Button, "Off");
    off.states.focusable = true;

    let mut entry = leaf("/entry", Role::Entry, "E");
    entry.states.sensitive = true;
    entry.states.read_only = true;
    entry.states.required = true;
    entry.states.invalid = true;

    let mut bar = leaf("/bar", Role::ScrollBar, "B");
    bar.states.sensitive = true;
    bar.states.orientation = Some(Orientation::Horizontal);
    bar.states.busy = true;

    let mut ids = NodeIdMap::new();
    let update = build(&[root, off, entry, bar], &mut ids);
    let by_id: HashMap<NodeId, Node> = update.nodes.iter().cloned().collect();
    let node = |path: &str| by_id.get(&ids.get(path).unwrap()).unwrap().clone();

    assert!(node("/off").is_disabled(), "insensitive control is disabled");
    assert!(!node("/entry").is_disabled());
    assert!(node("/entry").is_read_only());
    assert!(node("/entry").is_required());
    assert_eq!(node("/entry").invalid(), Some(Invalid::True));
    assert_eq!(node("/bar").orientation(), Some(Orientation::Horizontal));
    assert!(node("/bar").is_busy());
}

#[test]
fn description_reaches_accesskit_and_never_duplicates_the_label() {
    let mut root = leaf("/win", Role::Frame, "w");
    root.children = vec!["/a".into(), "/b".into()];
    let mut a = leaf("/a", Role::Button, "Save");
    a.description = "Save the current document".into();
    // GTK duplicates the name into the description on several widgets --
    // forwarding that makes a screen reader say the label twice.
    let mut b = leaf("/b", Role::Button, "Open");
    b.description = "Open".into();

    let mut ids = NodeIdMap::new();
    let update = build(&[root, a, b], &mut ids);
    let by_id: HashMap<NodeId, Node> = update.nodes.iter().cloned().collect();

    assert_eq!(
        by_id[&ids.get("/a").unwrap()].description(),
        Some("Save the current document"),
    );
    assert_eq!(
        by_id[&ids.get("/b").unwrap()].description(),
        None,
        "a description echoing the label is dropped",
    );
}

#[test]
fn toggleable_roles_always_report_a_toggle_state() {
    // LibreOffice/gtk3 omits State::Checkable on an unchecked check button,
    // so its `toggled` would collapse to None and the node would lose its
    // UIA Toggle pattern exactly while unchecked.
    for role in [
        Role::CheckBox,
        Role::CheckMenuItem,
        Role::RadioButton,
        Role::RadioMenuItem,
        Role::ToggleButton,
    ] {
        let node = leaf("/n", role, "x");
        assert_eq!(node.states.toggled, None, "{role:?} reads no toggle state");
        let update = build(std::slice::from_ref(&node), &mut NodeIdMap::new());
        assert_eq!(
            update.nodes[0].1.toggled(),
            Some(Toggled::False),
            "{role:?} still reports a toggle",
        );
    }

    let button = leaf("/b", Role::Button, "Go");
    let update = build(std::slice::from_ref(&button), &mut NodeIdMap::new());
    assert_eq!(update.nodes[0].1.toggled(), None, "a plain button is not a toggle");

    let mut mixed = leaf("/c", Role::CheckBox, "x");
    mixed.states.toggled = Some(Toggled::Mixed);
    let update = build(std::slice::from_ref(&mixed), &mut NodeIdMap::new());
    assert_eq!(
        update.nodes[0].1.toggled(),
        Some(Toggled::Mixed),
        "a read state wins over the floor",
    );
}

#[test]
fn disabled_is_not_stamped_on_inert_containers() {
    // A layout box reports no Sensitive either, but it is not a control and
    // must not reach the client announced as disabled.
    let mut root = leaf("/win", Role::Frame, "w");
    root.children = vec!["/panel".into()];
    let panel = leaf("/panel", Role::Panel, "");

    let mut ids = NodeIdMap::new();
    let update = build(&[root, panel], &mut ids);
    let by_id: HashMap<NodeId, Node> = update.nodes.iter().cloned().collect();
    assert!(!by_id[&ids.get("/panel").unwrap()].is_disabled());
    assert!(!by_id[&ids.get("/win").unwrap()].is_disabled());
}

#[test]
fn no_node_is_ever_hidden() {
    // is_hidden() makes the consumer drop the whole subtree, and GTK reports
    // Showing=false for scrolled-out rows a screen reader still needs. The
    // walk filters visibility at the window level instead.
    let mut root = leaf("/win", Role::Frame, "w");
    root.children = vec!["/a".into()];
    let a = leaf("/a", Role::Button, "A");

    let mut ids = NodeIdMap::new();
    let update = build(&[root, a], &mut ids);
    assert!(
        update.nodes.iter().all(|(_, node)| !node.is_hidden()),
        "no mirrored node is ever marked hidden",
    );
}

#[test]
fn build_node_forwards_states_to_accesskit() {
    let mut root = leaf("/win", Role::Frame, "App");
    root.children = vec!["/check".into(), "/combo".into(), "/opt".into()];
    let mut check = leaf("/check", Role::CheckMenuItem, "Bold");
    check.states.toggled = Some(Toggled::True);
    let mut combo = leaf("/combo", Role::ComboBox, "Font");
    combo.states.has_popup = true;
    combo.states.expanded = Some(false);
    let mut opt = leaf("/opt", Role::ListItem, "Item");
    opt.states.selected = Some(true);

    let mut ids = NodeIdMap::new();
    let update = build(&[root, check, combo, opt], &mut ids);

    let node = |path: &str| {
        let id = ids.get(path).unwrap();
        update.nodes.iter().find(|(i, _)| *i == id).unwrap().1.clone()
    };
    assert_eq!(node("/check").toggled(), Some(Toggled::True));
    assert_eq!(node("/combo").has_popup(), Some(HasPopup::Menu));
    assert_eq!(node("/combo").is_expanded(), Some(false));
    assert_eq!(node("/opt").is_selected(), Some(true));
}

#[test]
fn builds_window_tree_with_children_and_actions() {
    let mut root = leaf("/win", Role::Frame, "Editor");
    root.children = vec!["/label".into(), "/button".into()];
    let label = leaf("/label", Role::Label, "hello");
    let mut button = leaf("/button", Role::Button, "Click me");
    button.interfaces.insert(Interface::Action);
    button.states.focusable = true;

    let mut ids = NodeIdMap::new();
    let update = build(&[root, label, button], &mut ids);

    assert_eq!(update.nodes.len(), 3);
    let root_id = ids.get("/win").unwrap();
    assert_eq!(update.tree.as_ref().unwrap().root, root_id);
    assert_eq!(update.focus, root_id, "no focused node falls back to root");

    let button_id = ids.get("/button").unwrap();
    let (_, button_node) = update
        .nodes
        .iter()
        .find(|(id, _)| *id == button_id)
        .unwrap();
    assert!(button_node.supports_action(Action::Click));
    assert!(button_node.supports_action(Action::Focus));
}

#[test]
fn click_is_gated_to_clickable_roles() {
    let mut panel = leaf("/panel", Role::Panel, "");
    panel.interfaces.insert(Interface::Action);
    let mut button = leaf("/button", Role::Button, "Go");
    button.interfaces.insert(Interface::Action);

    let mut ids = NodeIdMap::new();
    let update = build(&[panel, button], &mut ids);
    let panel_node = &update.nodes[0].1;
    let button_node = &update.nodes[1].1;
    assert!(
        !panel_node.supports_action(Action::Click),
        "a container that merely implements the Action interface is not clickable"
    );
    assert!(button_node.supports_action(Action::Click));
}

#[test]
fn label_text_lands_in_value_not_label() {
    let label = leaf("/l", Role::Label, "status text");
    let mut ids = NodeIdMap::new();
    let update = build(&[label], &mut ids);
    let (_, node) = &update.nodes[0];
    assert_eq!(node.value(), Some("status text"));
    assert_eq!(node.label(), None);
}

#[test]
fn focus_points_at_the_focused_node() {
    let mut root = leaf("/win", Role::Frame, "w");
    root.children = vec!["/button".into()];
    let mut button = leaf("/button", Role::Button, "b");
    button.states.focused = true;
    let mut ids = NodeIdMap::new();
    let update = build(&[root, button], &mut ids);
    assert_eq!(update.focus, ids.get("/button").unwrap());
}

#[test]
fn child_refs_to_unwalked_paths_are_dropped() {
    let mut root = leaf("/win", Role::Frame, "w");
    root.children = vec!["/present".into(), "/cutoff".into()];
    let present = leaf("/present", Role::Button, "here");

    let mut ids = NodeIdMap::new();
    let update = build(&[root, present], &mut ids);

    assert_eq!(ids.get("/cutoff"), None, "no id allocated for an unwalked path");
    let root_id = ids.get("/win").unwrap();
    let present_id = ids.get("/present").unwrap();
    let (_, root_node) = update.nodes.iter().find(|(id, _)| *id == root_id).unwrap();
    assert_eq!(root_node.children().to_vec(), vec![present_id]);

    let present_ids: HashSet<NodeId> = update.nodes.iter().map(|(id, _)| *id).collect();
    for (_, node) in &update.nodes {
        for child in node.children() {
            assert!(present_ids.contains(child), "child {child:?} has no node");
        }
    }
}

#[test]
fn reads_text_runs_editable_always_static_only_as_leaf() {
    // Editable text roles get runs regardless of child structure.
    for role in [Role::Text, Role::Entry, Role::PasswordText] {
        assert!(reads_text_runs(role, false), "{role:?} leaf");
        assert!(reads_text_runs(role, true), "{role:?} with children");
    }
    // Static text roles get runs only as leaves; a structured document
    // keeps its element children instead of also emitting the whole text flat.
    for role in [
        Role::Label,
        Role::Terminal,
        Role::DocumentText,
        Role::DocumentWeb,
    ] {
        assert!(reads_text_runs(role, false), "{role:?} leaf");
        assert!(!reads_text_runs(role, true), "{role:?} with children");
    }
    // Non-text roles never get runs.
    for role in [Role::Button, Role::Panel, Role::Frame] {
        assert!(!reads_text_runs(role, false), "{role:?}");
    }
}

#[test]
fn paragraph_reads_runs_as_leaf_and_stays_caret_less() {
    assert!(reads_text_runs(Role::Paragraph, false));
    assert!(!reads_text_runs(Role::Paragraph, true));
    assert!(!has_text_caret(Role::Paragraph));
}

#[test]
fn consumer_reads_document_text_through_paragraph_runs() {
    let mut root = leaf("/win", Role::Frame, "w");
    root.children = vec!["/doc".into()];
    let mut doc = leaf("/doc", Role::DocumentText, "");
    doc.children = vec!["/doc/p1".into(), "/doc/p2".into()];
    let mut p1 = leaf("/doc/p1", Role::Paragraph, "");
    p1.text = Some(TextState {
        text: "One.".into(),
        caret: None,
        selection: None,
        extents: None,
    });
    let mut p2 = leaf("/doc/p2", Role::Paragraph, "");
    p2.text = Some(TextState {
        text: "Two.".into(),
        caret: None,
        selection: None,
        extents: None,
    });

    let mut ids = NodeIdMap::new();
    let update = build_window_update(&[root, doc, p1, p2], &mut ids, &mut WindowCache::default());
    let doc_id = ids.get("/doc").unwrap();

    let tree = accesskit_consumer::Tree::new(wire(&update), false);
    let state = tree.state();
    let doc_node = state
        .node_by_tree_local_id(wire_id(doc_id), accesskit::TreeId::ROOT)
        .expect("document present in consumer tree");
    assert!(doc_node.supports_text_ranges());
    assert_eq!(doc_node.document_range().text(), "One.Two.");
}

#[test]
fn has_text_caret_only_for_editable_and_terminal() {
    for role in [Role::Text, Role::Entry, Role::PasswordText, Role::Terminal] {
        assert!(has_text_caret(role), "{role:?}");
    }
    for role in [Role::Label, Role::DocumentText, Role::DocumentWeb, Role::Button] {
        assert!(!has_text_caret(role), "{role:?}");
    }
}

// --- Text / caret synthesis ---

fn text_node(path: &str, state: TextState) -> MirrorNode {
    let mut node = leaf(path, Role::Text, "");
    node.text = Some(state);
    node
}

fn char_lengths(run: &Node) -> Vec<u8> {
    run.character_lengths().to_vec()
}

#[test]
fn split_runs_keeps_line_breaks_and_trails_empty() {
    assert_eq!(split_runs(""), vec![""]);
    assert_eq!(split_runs("a"), vec!["a"]);
    assert_eq!(split_runs("a\n"), vec!["a\n", ""]);
    assert_eq!(split_runs("a\nb"), vec!["a\n", "b"]);
    assert_eq!(split_runs("a\n\nb"), vec!["a\n", "\n", "b"]);
}

#[test]
fn character_lengths_are_per_code_point_utf8_bytes() {
    assert_eq!(character_lengths("ab\n"), vec![1, 1, 1]);
    assert_eq!(character_lengths("é"), vec![2]);
    assert_eq!(character_lengths("\u{a0}"), vec![2]);
    assert_eq!(character_lengths("\u{1f44d}"), vec![4]);
    for s in ["", "ab", "héllo\n", "\u{1f44d}x"] {
        let sum: usize = character_lengths(s).iter().map(|&n| n as usize).sum();
        assert_eq!(sum, s.len(), "lengths of {s:?} must sum to byte length");
    }
}

#[test]
fn build_text_runs_concatenate_to_input_with_stable_ids() {
    let mut ids = NodeIdMap::new();
    let (runs, layout) = build_text_runs("/doc", "hi\nyo", None, None, &mut ids);
    assert_eq!(runs.len(), 2);
    let joined: String = runs.iter().map(|(_, n)| n.value().unwrap()).collect();
    assert_eq!(joined, "hi\nyo");
    for (_, node) in &runs {
        assert_eq!(node.role(), A::TextRun);
    }
    assert_eq!(char_lengths(&runs[0].1), vec![1, 1, 1]);
    assert_eq!(char_lengths(&runs[1].1), vec![1, 1]);
    assert_eq!(layout.iter().map(|r| r.chars).collect::<Vec<_>>(), vec![3, 2]);

    let (runs2, _) = build_text_runs("/doc", "hi\nyo", None, None, &mut ids);
    assert_eq!(
        runs.iter().map(|(id, _)| *id).collect::<Vec<_>>(),
        runs2.iter().map(|(id, _)| *id).collect::<Vec<_>>(),
        "run ids are stable across rebuilds"
    );
}

#[test]
fn empty_text_yields_one_empty_run() {
    let mut ids = NodeIdMap::new();
    let (runs, layout) = build_text_runs("/doc", "", None, None, &mut ids);
    assert_eq!(runs.len(), 1);
    assert_eq!(runs[0].1.value(), Some(""));
    assert_eq!(layout[0].chars, 0);
}

#[test]
fn text_position_maps_offsets_across_runs_and_clamps() {
    let mut ids = NodeIdMap::new();
    let (_, layout) = build_text_runs("/doc", "ab\ncd", None, None, &mut ids);
    let (r0, r1) = (layout[0].id, layout[1].id);
    assert_eq!(text_position(&layout, 0), TextPosition { node: r0, character_index: 0 });
    // Offset 2 lands ON the line break inside run 0.
    assert_eq!(text_position(&layout, 2), TextPosition { node: r0, character_index: 2 });
    // Offset 3 is the start of the next line.
    assert_eq!(text_position(&layout, 3), TextPosition { node: r1, character_index: 0 });
    // End of document clamps to the last run's end.
    assert_eq!(text_position(&layout, 5), TextPosition { node: r1, character_index: 2 });
    assert_eq!(text_position(&layout, 99), TextPosition { node: r1, character_index: 2 });
}

#[test]
fn text_offset_is_the_inverse_of_text_position() {
    let mut ids = NodeIdMap::new();
    let (_, layout) = build_text_runs("/doc", "ab\ncd", None, None, &mut ids);
    let total: usize = layout.iter().map(|r| r.chars).sum();
    // Round-trips at the start, an interior offset, a run boundary, and the
    // end-of-text boundary (where off-by-one bugs live).
    for k in [0usize, 1, 3, total] {
        assert_eq!(
            text_offset(&layout, &text_position(&layout, k)),
            Some(k),
            "round-trip at offset {k}"
        );
    }
    // A run id absent from the layout resolves to nothing.
    let bogus = TextPosition { node: NodeId(9999), character_index: 0 };
    assert_eq!(text_offset(&layout, &bogus), None);
}

#[test]
fn offsets_past_the_end_come_back_as_the_end() {
    let mut ids = NodeIdMap::new();
    let (_, layout) = build_text_runs("/doc", "ab\ncd", None, None, &mut ids);
    for k in [5usize, 6, 99, usize::MAX] {
        assert_eq!(text_offset(&layout, &text_position(&layout, k)), Some(5));
    }
}

#[test]
fn text_position_counts_code_points_not_bytes() {
    let mut ids = NodeIdMap::new();
    let (_, layout) = build_text_runs("/doc", "é\nb", None, None, &mut ids);
    // Offset 1 is the '\n' after the 2-byte 'é', still index 1 (code points).
    assert_eq!(text_position(&layout, 1), TextPosition { node: layout[0].id, character_index: 1 });
    assert_eq!(text_position(&layout, 2), TextPosition { node: layout[1].id, character_index: 0 });
}

#[test]
fn text_selection_direction_and_degenerate_cases() {
    let mut ids = NodeIdMap::new();
    let (_, layout) = build_text_runs("/doc", "abcdef", None, None, &mut ids);
    let run = layout[0].id;
    let pos = |i| TextPosition { node: run, character_index: i };

    // Caret only: degenerate selection.
    let caret = TextState { text: "abcdef".into(), caret: Some(3), selection: None, extents: None };
    assert_eq!(text_selection(&caret, &layout), Some(TextSelection { anchor: pos(3), focus: pos(3) }));

    // Forward selection: caret at the end.
    let fwd = TextState { text: "abcdef".into(), caret: Some(4), selection: Some((1, 4)), extents: None };
    assert_eq!(text_selection(&fwd, &layout), Some(TextSelection { anchor: pos(1), focus: pos(4) }));

    // Backward selection: caret at the start.
    let back = TextState { text: "abcdef".into(), caret: Some(1), selection: Some((1, 4)), extents: None };
    assert_eq!(text_selection(&back, &layout), Some(TextSelection { anchor: pos(4), focus: pos(1) }));

    // Neither caret nor selection: nothing.
    let none = TextState { text: "abcdef".into(), caret: None, selection: None, extents: None };
    assert_eq!(text_selection(&none, &layout), None);
}

#[test]
fn word_starts_mark_word_boundaries_and_cap_at_u8() {
    let mut ids = NodeIdMap::new();
    let (runs, _) = build_text_runs("/doc", "foo bar\n", None, None, &mut ids);
    assert_eq!(runs[0].1.word_starts().to_vec(), vec![0u8, 4]);

    // A word start past 255 collapses word info to empty.
    let long = format!("{} b", "a".repeat(300));
    let (long_runs, _) = build_text_runs("/doc2", &long, None, None, &mut ids);
    assert!(long_runs[0].1.word_starts().is_empty());
}

#[test]
fn build_window_update_appends_runs_and_populates_cache() {
    let mut root = leaf("/win", Role::Frame, "w");
    root.children = vec!["/doc".into()];
    let doc = text_node("/doc", TextState { text: "hi\n".into(), caret: Some(3), selection: None, extents: None });

    let mut ids = NodeIdMap::new();
    let mut caches = WindowCache::default();
    let update = build_window_update(&[root, doc], &mut ids, &mut caches);

    let doc_id = ids.get("/doc").unwrap();
    let (_, doc_node) = update.nodes.iter().find(|(id, _)| *id == doc_id).unwrap();
    // Two runs for "hi\n": ["hi\n", ""].
    assert_eq!(doc_node.children().len(), 2);
    assert!(doc_node.text_selection().is_some());
    for child in doc_node.children() {
        let (_, n) = update.nodes.iter().find(|(id, _)| id == child).unwrap();
        assert_eq!(n.role(), A::TextRun);
    }
    assert!(caches.text.contains_key("/doc"), "text cache populated");

    // Vanished text paths are pruned from the cache on the next build.
    let root2 = leaf("/win", Role::Frame, "w");
    build_window_update(&[root2], &mut ids, &mut caches);
    assert!(!caches.text.contains_key("/doc"), "cache pruned when node absent");
}

#[test]
fn text_cache_records_caret_enabled_per_role() {
    let mut editable = leaf("/e", Role::Text, "");
    editable.text = Some(TextState { text: "x".into(), caret: Some(1), selection: None, extents: None });
    let mut label = leaf("/l", Role::Label, "hi");
    label.text = Some(TextState { text: "hi".into(), caret: None, selection: None, extents: None });

    let mut ids = NodeIdMap::new();
    let mut caches = WindowCache::default();
    build_window_update(&[editable, label], &mut ids, &mut caches);

    assert!(caches.text.get("/e").unwrap().caret_enabled, "editable text has a caret");
    assert!(!caches.text.get("/l").unwrap().caret_enabled, "static label has none");
}

#[test]
fn static_label_with_text_keeps_value_and_gains_runs() {
    let mut label = leaf("/l", Role::Label, "Status: OK");
    label.text = Some(TextState { text: "Status: OK".into(), caret: None, selection: None, extents: None });

    let mut ids = NodeIdMap::new();
    let update = build_window_update(&[label], &mut ids, &mut WindowCache::default());
    let (_, node) = &update.nodes[0];

    assert_eq!(node.value(), Some("Status: OK"), "label keeps its name in value");
    assert_eq!(node.label(), None);
    assert_eq!(node.children().len(), 1, "one run for single-line text");
    let run = node.children()[0];
    let (_, run_node) = update.nodes.iter().find(|(id, _)| *id == run).unwrap();
    assert_eq!(run_node.role(), A::TextRun);
    assert_eq!(run_node.value(), Some("Status: OK"));
}

#[test]
fn no_duplicate_child_ids_across_text_nodes() {
    let mut root = leaf("/win", Role::Frame, "w");
    root.children = vec!["/a".into(), "/b".into()];
    let a = text_node("/a", TextState { text: "x\ny".into(), caret: None, selection: None, extents: None });
    let b = text_node("/b", TextState { text: "z".into(), caret: None, selection: None, extents: None });

    let mut ids = NodeIdMap::new();
    let update = build_window_update(&[root, a, b], &mut ids, &mut WindowCache::default());
    let mut seen = HashSet::new();
    for (id, _) in &update.nodes {
        assert!(seen.insert(*id), "duplicate node id {id:?} in update");
    }
}

#[test]
fn rebuild_text_node_emits_minimal_deltas() {
    let doc = text_node("/doc", TextState { text: "one\ntwo".into(), caret: Some(0), selection: None, extents: None });
    let mut ids = NodeIdMap::new();
    let mut caches = WindowCache::default();
    build_window_update(&[doc], &mut ids, &mut caches);

    // Caret-only move: exactly the container changes.
    let moved = TextState { text: "one\ntwo".into(), caret: Some(5), selection: None, extents: None };
    let delta = rebuild_text_node(&mut caches, "/doc", &moved, &mut ids);
    assert_eq!(delta.len(), 1, "caret move is a single-node delta");
    assert_eq!(delta[0].0, caches.text.get("/doc").unwrap().node_id);

    // Identical state: nothing changes.
    assert!(rebuild_text_node(&mut caches, "/doc", &moved, &mut ids).is_empty());

    // Editing the second line: container (its selection tracks) + that run.
    let edited = TextState { text: "one\nTWO".into(), caret: Some(7), selection: None, extents: None };
    let ids_before = (caches.text.get("/doc").unwrap().runs[0].0, caches.text.get("/doc").unwrap().runs[1].0);
    let delta = rebuild_text_node(&mut caches, "/doc", &edited, &mut ids);
    let changed_ids: HashSet<NodeId> = delta.iter().map(|(id, _)| *id).collect();
    assert!(changed_ids.contains(&caches.text.get("/doc").unwrap().node_id));
    assert!(changed_ids.contains(&ids_before.1), "edited run 1 is included");
    assert!(!changed_ids.contains(&ids_before.0), "unchanged run 0 is not");
}

#[test]
fn rebuild_text_node_shrinks_run_children() {
    let doc = text_node("/doc", TextState { text: "a\nb\nc".into(), caret: None, selection: None, extents: None });
    let mut ids = NodeIdMap::new();
    let mut caches = WindowCache::default();
    build_window_update(&[doc], &mut ids, &mut caches);
    let node_id = caches.text.get("/doc").unwrap().node_id;

    let shorter = TextState { text: "a".into(), caret: None, selection: None, extents: None };
    let delta = rebuild_text_node(&mut caches, "/doc", &shorter, &mut ids);
    let (_, parent) = delta.iter().find(|(id, _)| *id == node_id).unwrap();
    assert_eq!(parent.children().len(), 1, "container children shrink to one run");
}

// --- Per-node refresh ---

#[test]
fn refresh_node_returns_nothing_when_the_read_is_unchanged() {
    let mut root = leaf("/win", Role::Frame, "w");
    root.children = vec!["/a".into()];
    let mut check = leaf("/a", Role::CheckBox, "Check");
    check.states.toggled = Some(Toggled::False);
    check.states.focusable = true;
    check.states.sensitive = true;

    let mut ids = NodeIdMap::new();
    let mut cache = WindowCache::default();
    build_window_update(&[root.clone(), check.clone()], &mut ids, &mut cache);

    let check_id = ids.get("/a").unwrap();
    assert!(
        refresh_node(&check, check_id, &[], &mut ids, &mut cache).is_none(),
        "an identical read emits nothing"
    );
    let root_id = ids.get("/win").unwrap();
    assert!(
        refresh_node(&root, root_id, &["/a".to_owned()], &mut ids, &mut cache).is_none(),
        "a container rebuilt with its emitted children emits nothing"
    );
}

#[test]
fn refresh_node_takes_negative_zero_for_zero() {
    let mut slider = leaf("/s", Role::Slider, "Balance");
    slider.value = Some(value_state(0.0, -1.0, 1.0, 0.1));
    let mut ids = NodeIdMap::new();
    let mut cache = WindowCache::default();
    build_window_update(&[slider.clone()], &mut ids, &mut cache);
    let id = ids.get("/s").unwrap();

    let mut fresh = slider.clone();
    fresh.value = Some(value_state(-0.0, -1.0, 1.0, 0.1));
    assert!(refresh_node(&fresh, id, &[], &mut ids, &mut cache).is_none(), "the same number");
    fresh.value = Some(value_state(-0.5, -1.0, 1.0, 0.1));
    assert!(refresh_node(&fresh, id, &[], &mut ids, &mut cache).is_some());
    fresh.value = Some(value_state(0.5, -1.0, 1.0, 0.1));
    assert!(refresh_node(&fresh, id, &[], &mut ids, &mut cache).is_some());
}

#[test]
fn refresh_node_emits_one_node_for_a_toggle_change() {
    let mut check = leaf("/a", Role::CheckBox, "Check");
    check.states.toggled = Some(Toggled::False);
    let mut ids = NodeIdMap::new();
    let mut cache = WindowCache::default();
    build_window_update(&[check.clone()], &mut ids, &mut cache);
    let id = ids.get("/a").unwrap();

    let mut fresh = check.clone();
    fresh.states.toggled = Some(Toggled::True);
    let (emitted_id, node) =
        refresh_node(&fresh, id, &[], &mut ids, &mut cache).expect("the toggle changed");

    assert_eq!(emitted_id, id);
    assert_eq!(node.toggled(), Some(Toggled::True));
    assert_eq!(
        cache.nodes.get("/a").unwrap().toggled(),
        Some(Toggled::True),
        "the cache advances to the emitted node"
    );
    assert!(
        refresh_node(&fresh, id, &[], &mut ids, &mut cache).is_none(),
        "re-reading the same state is a no-op"
    );
}

#[test]
fn refresh_node_ignores_the_fresh_reads_children() {
    let mut root = leaf("/grid", Role::Table, "Sheet");
    root.children = vec!["/a".into(), "/b".into()];
    let mut ids = NodeIdMap::new();
    let mut cache = WindowCache::default();
    build_window_update(
        &[root.clone(), leaf("/a", Role::TableCell, "A"), leaf("/b", Role::TableCell, "B")],
        &mut ids,
        &mut cache,
    );
    let id = ids.get("/grid").unwrap();
    let emitted = vec!["/a".to_owned(), "/b".to_owned()];

    // A lazy grid's fresh read sees thousands of cells the client never got.
    let mut fresh = root.clone();
    fresh.children = (0..5000).map(|index| format!("/cell{index}")).collect();
    fresh.states.busy = true;
    let (_, node) = refresh_node(&fresh, id, &emitted, &mut ids, &mut cache).expect("busy changed");

    assert_eq!(
        node.children(),
        &[ids.get("/a").unwrap(), ids.get("/b").unwrap()],
        "structure comes from what the client holds"
    );
    assert_eq!(ids.get("/cell0"), None, "unemitted children allocate no ids");
}

#[test]
fn refresh_node_preserves_a_text_nodes_runs_and_selection() {
    let doc = text_node(
        "/doc",
        TextState { text: "one\ntwo".into(), caret: Some(2), selection: None, extents: None },
    );
    let mut ids = NodeIdMap::new();
    let mut cache = WindowCache::default();
    build_window_update(std::slice::from_ref(&doc), &mut ids, &mut cache);
    let id = ids.get("/doc").unwrap();
    let runs_before = cache.nodes.get("/doc").unwrap().children().to_vec();
    let selection_before = cache.nodes.get("/doc").unwrap().text_selection().cloned();
    assert_eq!(runs_before.len(), 2);
    assert!(selection_before.is_some());

    // A refresh reads no text, so `text` is None on the fresh node.
    let mut fresh = doc.clone();
    fresh.text = None;
    fresh.states.read_only = true;
    let (_, node) = refresh_node(&fresh, id, &[], &mut ids, &mut cache).expect("read_only changed");

    assert!(node.is_read_only());
    assert_eq!(node.children(), runs_before.as_slice(), "run children survive");
    assert_eq!(node.text_selection(), selection_before.as_ref(), "selection survives");
}

#[test]
fn refresh_node_and_rebuild_text_node_share_one_cache_slot() {
    let doc = text_node(
        "/doc",
        TextState { text: "a".into(), caret: Some(0), selection: None, extents: None },
    );
    let mut ids = NodeIdMap::new();
    let mut cache = WindowCache::default();
    build_window_update(std::slice::from_ref(&doc), &mut ids, &mut cache);
    let id = ids.get("/doc").unwrap();

    let mut fresh = doc.clone();
    fresh.text = None;
    fresh.description = "Document body".into();
    refresh_node(&fresh, id, &[], &mut ids, &mut cache).expect("the description changed");

    let edited = TextState { text: "ab".into(), caret: Some(2), selection: None, extents: None };
    let delta = rebuild_text_node(&mut cache, "/doc", &edited, &mut ids);
    let (_, parent) = delta.iter().find(|(emitted, _)| *emitted == id).expect("container changed");
    assert_eq!(
        parent.description(),
        Some("Document body"),
        "the text rebuild diffs against the refreshed node"
    );
}

#[test]
fn caret_move_reuses_cached_extents_and_stays_a_minimal_delta() {
    let doc = text_node(
        "/doc",
        TextState {
            text: "hi".into(),
            caret: Some(0),
            selection: None,
            extents: Some(vec![ext(10, 0, 8, 16), ext(18, 0, 8, 16)]),
        },
    );
    let mut ids = NodeIdMap::new();
    let mut caches = WindowCache::default();
    build_window_update(&[doc], &mut ids, &mut caches);

    // A caret move re-reads no geometry; the cached extents keep the runs
    // identical, so only the container changes.
    let moved = TextState { text: "hi".into(), caret: Some(1), selection: None, extents: None };
    let delta = rebuild_text_node(&mut caches, "/doc", &moved, &mut ids);
    assert_eq!(delta.len(), 1, "caret move stays a container-only delta");
    assert_eq!(delta[0].0, caches.text.get("/doc").unwrap().node_id);
    assert!(
        caches.text.get("/doc").unwrap().runs[0].1.bounds().is_some(),
        "cached run keeps its geometry across the caret move"
    );
}

#[test]
fn text_change_with_fresh_extents_updates_run_geometry() {
    let doc = text_node(
        "/doc",
        TextState {
            text: "hi".into(),
            caret: Some(0),
            selection: None,
            extents: Some(vec![ext(10, 0, 8, 16), ext(18, 0, 8, 16)]),
        },
    );
    let mut ids = NodeIdMap::new();
    let mut caches = WindowCache::default();
    build_window_update(&[doc], &mut ids, &mut caches);

    let fresh = vec![ext(10, 0, 8, 16), ext(18, 0, 9, 16)];
    let edited = TextState {
        text: "hx".into(),
        caret: Some(2),
        selection: None,
        extents: Some(fresh.clone()),
    };
    let delta = rebuild_text_node(&mut caches, "/doc", &edited, &mut ids);
    let run_id = caches.text.get("/doc").unwrap().runs[0].0;
    let (_, run) = delta.iter().find(|(id, _)| *id == run_id).unwrap();
    assert_eq!(
        run.bounds(),
        Some(accesskit::Rect { x0: 10.0, y0: 0.0, x1: 27.0, y1: 16.0 }),
        "edited run carries the fresh geometry"
    );
    assert_eq!(caches.text.get("/doc").unwrap().extents.as_deref(), Some(&fresh[..]), "fresh extents cached");
}

#[test]
fn text_change_without_extents_drops_stale_geometry() {
    let doc = text_node(
        "/doc",
        TextState {
            text: "hi".into(),
            caret: Some(0),
            selection: None,
            extents: Some(vec![ext(10, 0, 8, 16), ext(18, 0, 8, 16)]),
        },
    );
    let mut ids = NodeIdMap::new();
    let mut caches = WindowCache::default();
    build_window_update(&[doc], &mut ids, &mut caches);

    // Text length changed but no fresh extents arrived: stale geometry
    // must be dropped, not misapplied.
    let edited = TextState { text: "hey".into(), caret: Some(3), selection: None, extents: None };
    let delta = rebuild_text_node(&mut caches, "/doc", &edited, &mut ids);
    let run_id = caches.text.get("/doc").unwrap().runs[0].0;
    let (_, run) = delta.iter().find(|(id, _)| *id == run_id).unwrap();
    assert_eq!(run.bounds(), None, "rebuilt run carries no stale geometry");
    assert_eq!(caches.text.get("/doc").unwrap().extents, None, "stale cached extents cleared");
}

#[test]
fn clamp_text_truncates_at_code_point_boundary() {
    assert_eq!(clamp_text("short"), "short");
    let long = "a".repeat(MAX_TEXT_CHARS + 10);
    assert_eq!(clamp_text(&long).chars().count(), MAX_TEXT_CHARS);
}

// --- Text-run geometry ---

fn ext(x: i32, y: i32, width: i32, height: i32) -> CharExtent {
    CharExtent { x, y, width, height }
}

#[test]
fn runs_carry_geometry_when_extents_provided() {
    let extents = [
        ext(10, 0, 8, 16),
        ext(18, 0, 8, 16),
        ext(0, 0, 0, 0),
        ext(10, 16, 8, 16),
        ext(18, 16, 8, 16),
    ];
    let mut ids = NodeIdMap::new();
    let (runs, _) = build_text_runs("/n", "ab\ncd", Some(&extents), None, &mut ids);

    assert_eq!(
        runs[0].1.bounds(),
        Some(accesskit::Rect { x0: 10.0, y0: 0.0, x1: 26.0, y1: 16.0 })
    );
    assert_eq!(runs[0].1.character_positions(), Some(vec![0.0, 8.0, 16.0]));
    assert_eq!(runs[0].1.character_widths(), Some(vec![8.0, 8.0, 0.0]));
    assert_eq!(runs[0].1.text_direction(), Some(TextDirection::LeftToRight));

    assert_eq!(
        runs[1].1.bounds(),
        Some(accesskit::Rect { x0: 10.0, y0: 16.0, x1: 26.0, y1: 32.0 })
    );
    assert_eq!(runs[1].1.character_positions(), Some(vec![0.0, 8.0]));
    assert_eq!(runs[1].1.character_widths(), Some(vec![8.0, 8.0]));
}

#[test]
fn zero_extent_newline_is_synthesized_from_predecessor() {
    let extents = [ext(10, 0, 8, 16), ext(0, 0, 0, 0)];
    let mut ids = NodeIdMap::new();
    let (runs, _) = build_text_runs("/n", "a\n", Some(&extents), None, &mut ids);

    assert_eq!(runs[0].1.character_positions(), Some(vec![0.0, 8.0]));
    assert_eq!(runs[0].1.character_widths(), Some(vec![8.0, 0.0]));
    assert_eq!(
        runs[0].1.bounds(),
        Some(accesskit::Rect { x0: 10.0, y0: 0.0, x1: 18.0, y1: 16.0 }),
        "the zero-extent newline must not pollute x0"
    );
}

#[test]
fn trailing_empty_run_gets_a_zero_width_caret_rect() {
    let extents = [ext(10, 0, 8, 16), ext(0, 0, 0, 0)];
    let mut ids = NodeIdMap::new();
    let (runs, _) = build_text_runs("/n", "a\n", Some(&extents), None, &mut ids);

    assert_eq!(
        runs[1].1.bounds(),
        Some(accesskit::Rect { x0: 18.0, y0: 0.0, x1: 18.0, y1: 16.0 })
    );
    assert_eq!(runs[1].1.character_positions(), Some(vec![]));
    assert_eq!(runs[1].1.character_widths(), Some(vec![]));
    assert_eq!(runs[1].1.text_direction(), Some(TextDirection::LeftToRight));
}

#[test]
fn extent_length_mismatch_drops_geometry_entirely() {
    let extents = [ext(10, 0, 8, 16)];
    let mut ids = NodeIdMap::new();
    let (runs, _) = build_text_runs("/n", "ab", Some(&extents), None, &mut ids);

    assert_eq!(runs[0].1.bounds(), None);
    assert_eq!(runs[0].1.character_positions(), None);
    assert_eq!(runs[0].1.character_widths(), None);
    assert_eq!(runs[0].1.text_direction(), None);
}

#[test]
fn no_extents_means_no_geometry_properties() {
    let mut ids = NodeIdMap::new();
    let (runs, _) = build_text_runs("/n", "ab", None, None, &mut ids);

    assert_eq!(runs[0].1.bounds(), None);
    assert_eq!(runs[0].1.character_positions(), None);
    assert_eq!(runs[0].1.character_widths(), None);
    assert_eq!(runs[0].1.text_direction(), None);
    assert_eq!(runs[0].1.value(), Some("ab"));
    assert_eq!(char_lengths(&runs[0].1), vec![1, 1]);
}

#[test]
fn positions_are_run_relative_not_window_relative() {
    let extents = [ext(30, 0, 8, 16), ext(0, 0, 0, 0), ext(40, 16, 8, 16)];
    let mut ids = NodeIdMap::new();
    let (runs, _) = build_text_runs("/n", "x\ny", Some(&extents), None, &mut ids);

    assert_eq!(runs[1].1.character_positions(), Some(vec![0.0]), "run-relative, not 40.0");
    assert_eq!(
        runs[1].1.bounds(),
        Some(accesskit::Rect { x0: 40.0, y0: 16.0, x1: 48.0, y1: 32.0 })
    );
}

#[test]
fn empty_text_without_container_bounds_has_no_geometry() {
    let extents: [CharExtent; 0] = [];
    let mut ids = NodeIdMap::new();
    let (runs, _) = build_text_runs("/n", "", Some(&extents), None, &mut ids);

    assert_eq!(runs.len(), 1);
    assert_eq!(runs[0].1.bounds(), None);
    assert_eq!(runs[0].1.character_positions(), None);
    assert_eq!(runs[0].1.character_widths(), None);
    assert_eq!(runs[0].1.text_direction(), None);
}

#[test]
fn empty_text_anchors_caret_to_container() {
    let extents: [CharExtent; 0] = [];
    let mut ids = NodeIdMap::new();
    let (runs, _) = build_text_runs(
        "/n",
        "",
        Some(&extents),
        Some(ext(10, 20, 200, 30)),
        &mut ids,
    );

    assert_eq!(runs.len(), 1);
    assert_eq!(
        runs[0].1.bounds(),
        Some(accesskit::Rect { x0: 10.0, y0: 20.0, x1: 10.0, y1: 50.0 })
    );
    assert_eq!(runs[0].1.character_positions(), Some(vec![]));
    assert_eq!(runs[0].1.character_widths(), Some(vec![]));
    assert_eq!(runs[0].1.text_direction(), Some(TextDirection::LeftToRight));
}

#[test]
fn nonempty_text_without_extents_ignores_container() {
    let mut ids = NodeIdMap::new();
    let (runs, _) =
        build_text_runs("/n", "ab", None, Some(ext(10, 20, 200, 30)), &mut ids);
    assert_eq!(runs[0].1.bounds(), None, "a synthetic anchor never mixes with real text");
}

#[test]
fn clearing_text_keeps_the_container_caret_anchor() {
    let mut root = leaf("/win", Role::Frame, "w");
    root.children = vec!["/entry".into()];
    let mut entry = leaf("/entry", Role::Entry, "");
    entry.bounds = Some(ext(10, 20, 200, 30));
    entry.text = Some(TextState {
        text: "a".into(),
        caret: Some(1),
        selection: None,
        extents: Some(vec![ext(10, 20, 8, 16)]),
    });
    let mut ids = NodeIdMap::new();
    let mut caches = WindowCache::default();
    build_window_update(&[root, entry], &mut ids, &mut caches);

    let cleared = TextState {
        text: String::new(),
        caret: Some(0),
        selection: None,
        extents: Some(Vec::new()),
    };
    let changed = rebuild_text_node(&mut caches, "/entry", &cleared, &mut ids);
    let run_id = ids.get("/entry#run0").unwrap();
    let (_, run) = changed
        .iter()
        .find(|(id, _)| *id == run_id)
        .expect("emptied run re-emitted");
    assert_eq!(
        run.bounds(),
        Some(accesskit::Rect { x0: 10.0, y0: 20.0, x1: 10.0, y1: 50.0 })
    );
}

#[test]
fn consumer_exposes_caret_anchor_on_empty_field() {
    let mut root = leaf("/win", Role::Frame, "w");
    root.children = vec!["/entry".into()];
    let mut entry = leaf("/entry", Role::Entry, "");
    entry.bounds = Some(ext(10, 20, 200, 30));
    entry.text = Some(TextState {
        text: String::new(),
        caret: Some(0),
        selection: None,
        extents: Some(Vec::new()),
    });
    let mut ids = NodeIdMap::new();
    let update = build_window_update(&[root, entry], &mut ids, &mut WindowCache::default());
    let run_id = ids.get("/entry#run0").unwrap();

    let tree = accesskit_consumer::Tree::new(wire(&update), false);
    let state = tree.state();
    let run = state
        .node_by_tree_local_id(wire_id(run_id), accesskit::TreeId::ROOT)
        .expect("empty run present");
    assert_eq!(
        run.bounding_box(),
        Some(accesskit::Rect { x0: 10.0, y0: 20.0, x1: 10.0, y1: 50.0 })
    );
}

#[test]
fn leading_zero_extent_backfills_from_first_real_char() {
    let extents = [ext(0, 0, 0, 0), ext(10, 16, 8, 16)];
    let mut ids = NodeIdMap::new();
    let (runs, _) = build_text_runs("/n", "\na", Some(&extents), None, &mut ids);

    assert_eq!(
        runs[0].1.bounds(),
        Some(accesskit::Rect { x0: 10.0, y0: 16.0, x1: 10.0, y1: 32.0 })
    );
    assert_eq!(runs[0].1.character_positions(), Some(vec![0.0]));
    assert_eq!(runs[0].1.character_widths(), Some(vec![0.0]));

    assert_eq!(
        runs[1].1.bounds(),
        Some(accesskit::Rect { x0: 10.0, y0: 16.0, x1: 18.0, y1: 32.0 })
    );
    assert_eq!(runs[1].1.character_positions(), Some(vec![0.0]));
    assert_eq!(runs[1].1.character_widths(), Some(vec![8.0]));
}

#[test]
fn consumer_computes_bounding_boxes_from_run_geometry() {
    let mut root = leaf("/win", Role::Frame, "w");
    root.children = vec!["/label".into()];
    let mut label = leaf("/label", Role::Label, "");
    label.text = Some(TextState {
        text: "ab".into(),
        caret: None,
        selection: None,
        extents: Some(vec![ext(10, 0, 8, 16), ext(18, 0, 8, 16)]),
    });

    let mut ids = NodeIdMap::new();
    let update = build_window_update(&[root, label], &mut ids, &mut WindowCache::default());
    let label_id = ids.get("/label").unwrap();

    let tree = accesskit_consumer::Tree::new(wire(&update), false);
    let state = tree.state();
    let node = state
        .node_by_tree_local_id(wire_id(label_id), accesskit::TreeId::ROOT)
        .expect("label node present in consumer tree");
    let range = node.document_range();
    let boxes = range.bounding_boxes();

    assert_eq!(boxes.len(), 1, "expected exactly one bounding box");
    let rect = boxes[0];
    let expected = accesskit::Rect { x0: 10.0, y0: 0.0, x1: 26.0, y1: 16.0 };
    let close = |a: f64, b: f64| (a - b).abs() < 1e-6;
    assert!(
        close(rect.x0, expected.x0)
            && close(rect.y0, expected.y0)
            && close(rect.x1, expected.x1)
            && close(rect.y1, expected.y1),
        "expected {expected:?}, got {rect:?}"
    );
}

#[test]
fn container_bounds_become_node_bounds() {
    let mut root = leaf("/win", Role::Frame, "w");
    root.bounds = Some(ext(10, 20, 200, 30));
    let mut ids = NodeIdMap::new();
    let update = build_window_update(&[root], &mut ids, &mut WindowCache::default());
    assert_eq!(
        update.nodes[0].1.bounds(),
        Some(accesskit::Rect { x0: 10.0, y0: 20.0, x1: 210.0, y1: 50.0 })
    );
}

#[test]
fn zero_area_container_bounds_are_dropped() {
    let mut root = leaf("/win", Role::Frame, "w");
    root.bounds = Some(ext(10, 20, 0, 30));
    let mut ids = NodeIdMap::new();
    let update = build_window_update(&[root], &mut ids, &mut WindowCache::default());
    assert_eq!(update.nodes[0].1.bounds(), None);
}

// --- Chain splicing ---

#[test]
fn emitted_children_filters_to_walked_set() {
    let mut root = leaf("/win", Role::Frame, "w");
    root.children = vec!["/a".into(), "/lazy".into()];
    let a = leaf("/a", Role::Panel, "");
    let map = emitted_children(&[root, a]);
    assert_eq!(map.get("/win").unwrap().clone(), vec!["/a".to_owned()]);
    assert_eq!(map.get("/a").unwrap().clone(), Vec::<String>::new());
}

#[test]
fn splice_appends_chain_under_known_ancestor() {
    let mut fresh_table = leaf("/table", Role::Table, "grid");
    fresh_table.children = vec!["/table/cell".into()];
    let cell = leaf("/table/cell", Role::TableCell, "A1");
    let known = PathSet::of(&["/win".to_owned(), "/table".to_owned()]);
    let mut ids = NodeIdMap::new();
    let table_id = ids.id_for("/table");

    let result = splice_chain_update(
        &[fresh_table, cell],
        &[],
        &known,
        &mut ids,
        &mut WindowCache::default(),
    )
    .expect("chain splices");

    let cell_id = ids.get("/table/cell").expect("cell id allocated");
    assert_eq!(result.update.focus, cell_id);
    assert!(result.update.tree.is_none());
    let (_, table_node) = result
        .update
        .nodes
        .iter()
        .find(|(id, _)| *id == table_id)
        .expect("ancestor re-emitted");
    assert!(table_node.children().contains(&cell_id));
    assert!(result.update.nodes.iter().any(|(id, _)| *id == cell_id));
    assert_eq!(
        result.children,
        vec![
            ("/table".to_owned(), vec!["/table/cell".to_owned()]),
            ("/table/cell".to_owned(), Vec::new()),
        ]
    );
}

#[test]
fn splice_preserves_ancestor_children_absent_from_fresh_read() {
    let mut fresh_table = leaf("/table", Role::Table, "grid");
    fresh_table.children = vec!["/table/cell".into()];
    let cell = leaf("/table/cell", Role::TableCell, "A1");
    let known = PathSet::of(&["/table".to_owned(), "/table/a".to_owned(), "/table/b".to_owned()]);
    let mut ids = NodeIdMap::new();
    let a_id = ids.id_for("/table/a");
    let b_id = ids.id_for("/table/b");

    let result = splice_chain_update(
        &[fresh_table, cell],
        &["/table/a".to_owned(), "/table/b".to_owned()],
        &known,
        &mut ids,
        &mut WindowCache::default(),
    )
    .expect("chain splices");

    let table_id = ids.get("/table").unwrap();
    let cell_id = ids.get("/table/cell").unwrap();
    let (_, table_node) = result
        .update
        .nodes
        .iter()
        .find(|(id, _)| *id == table_id)
        .unwrap();
    assert_eq!(table_node.children(), &[a_id, b_id, cell_id]);
}

#[test]
fn splice_ignores_unknown_fresh_children() {
    let mut fresh_table = leaf("/table", Role::Table, "grid");
    fresh_table.children =
        vec!["/table/x1".into(), "/table/cell".into(), "/table/x2".into()];
    let cell = leaf("/table/cell", Role::TableCell, "A1");
    let known = PathSet::of(&["/table".to_owned()]);
    let mut ids = NodeIdMap::new();

    let result =
        splice_chain_update(&[fresh_table, cell], &[], &known, &mut ids, &mut WindowCache::default())
            .expect("chain splices");

    let table_id = ids.get("/table").unwrap();
    let cell_id = ids.get("/table/cell").unwrap();
    let (_, table_node) = result
        .update
        .nodes
        .iter()
        .find(|(id, _)| *id == table_id)
        .unwrap();
    assert_eq!(table_node.children(), &[cell_id], "never-walked cells contribute nothing");
    assert!(ids.get("/table/x1").is_none());
}

#[test]
fn splice_injects_missing_interior_link() {
    let table = leaf("/table", Role::Table, "grid");
    let row = leaf("/table/row", Role::Panel, "");
    let cell = leaf("/table/row/cell", Role::TableCell, "A1");
    let known = PathSet::of(&["/table".to_owned()]);
    let mut ids = NodeIdMap::new();

    let result = splice_chain_update(
        &[table, row, cell],
        &[],
        &known,
        &mut ids,
        &mut WindowCache::default(),
    )
    .expect("chain splices");

    let row_id = ids.get("/table/row").unwrap();
    let cell_id = ids.get("/table/row/cell").unwrap();
    let (_, row_node) = result
        .update
        .nodes
        .iter()
        .find(|(id, _)| *id == row_id)
        .expect("interior node emitted");
    assert_eq!(row_node.children(), &[cell_id]);
}

#[test]
fn resplice_is_idempotent() {
    let known = PathSet::of(&["/table".to_owned()]);
    let mut ids = NodeIdMap::new();
    let build = |ids: &mut NodeIdMap| {
        let mut fresh_table = leaf("/table", Role::Table, "grid");
        fresh_table.children = vec!["/table/cell".into()];
        let cell = leaf("/table/cell", Role::TableCell, "A1");
        splice_chain_update(
            &[fresh_table, cell],
            &[],
            &known,
            ids,
            &mut WindowCache::default(),
        )
        .expect("chain splices")
    };
    let first = build(&mut ids);
    let second = build(&mut ids);
    assert_eq!(first.update.focus, second.update.focus);
    assert_eq!(first.children, second.children);
    let ids_of = |r: &SpliceResult| {
        let mut v: Vec<_> = r.update.nodes.iter().map(|(id, _)| *id).collect();
        v.sort();
        v
    };
    assert_eq!(ids_of(&first), ids_of(&second));
}

#[test]
fn splice_rejects_a_short_chain() {
    let table = leaf("/table", Role::Table, "grid");
    let known = PathSet::of(&["/table".to_owned()]);
    let mut ids = NodeIdMap::new();
    assert!(splice_chain_update(&[table], &[], &known, &mut ids, &mut WindowCache::default())
        .is_none());
    assert!(splice_chain_update(&[], &[], &known, &mut ids, &mut WindowCache::default()).is_none());
}

#[test]
fn spliced_text_node_builds_runs_and_cache() {
    let mut fresh_doc = leaf("/doc", Role::DocumentText, "");
    fresh_doc.children = vec!["/doc/p".into()];
    let mut p = leaf("/doc/p", Role::Paragraph, "");
    p.text = Some(TextState {
        text: "hi".into(),
        caret: None,
        selection: None,
        extents: None,
    });
    let known = PathSet::of(&["/doc".to_owned()]);
    let mut ids = NodeIdMap::new();
    let mut caches = WindowCache::default();

    let result = splice_chain_update(&[fresh_doc, p], &[], &known, &mut ids, &mut caches)
        .expect("chain splices");

    let run_id = ids.get("/doc/p#run0").expect("run id allocated");
    assert!(result.update.nodes.iter().any(|(id, _)| *id == run_id));
    assert!(caches.text.contains_key("/doc/p"), "text cache recorded for later deltas");
}

#[test]
fn splice_evicts_stale_text_cache_for_run_less_chain_nodes() {
    let mut root = leaf("/win", Role::Frame, "w");
    root.children = vec!["/doc".into()];
    let mut doc = leaf("/doc", Role::DocumentText, "");
    doc.text = Some(TextState {
        text: "old".into(),
        caret: None,
        selection: None,
        extents: None,
    });
    let mut ids = NodeIdMap::new();
    let mut caches = WindowCache::default();
    build_window_update(&[root, doc], &mut ids, &mut caches);
    assert!(caches.text.contains_key("/doc"), "walked text leaf seeds a cache");

    let mut fresh_doc = leaf("/doc", Role::DocumentText, "");
    fresh_doc.children = vec!["/doc/p".into()];
    let p = leaf("/doc/p", Role::Paragraph, "");
    let known = PathSet::of(&["/win".to_owned(), "/doc".to_owned()]);
    splice_chain_update(&[fresh_doc, p], &[], &known, &mut ids, &mut caches)
        .expect("chain splices");

    assert!(
        !caches.text.contains_key("/doc"),
        "a chain node emitted without runs sheds its stale cache"
    );
}

#[test]
fn splice_filters_unknown_fresh_children_of_interior_nodes() {
    let table = leaf("/table", Role::Table, "grid");
    let mut row = leaf("/table/row", Role::Panel, "");
    row.children = vec!["/table/row/x1".into(), "/table/row/cell".into()];
    let cell = leaf("/table/row/cell", Role::TableCell, "A1");
    let known = PathSet::of(&["/table".to_owned()]);
    let mut ids = NodeIdMap::new();

    let result = splice_chain_update(
        &[table, row, cell],
        &[],
        &known,
        &mut ids,
        &mut WindowCache::default(),
    )
    .expect("chain splices");

    let row_id = ids.get("/table/row").unwrap();
    let cell_id = ids.get("/table/row/cell").unwrap();
    let (_, row_node) = result
        .update
        .nodes
        .iter()
        .find(|(id, _)| *id == row_id)
        .expect("interior node emitted");
    assert_eq!(row_node.children(), &[cell_id], "unknown fresh child filtered out");
    assert_eq!(
        result.children.iter().find(|(p, _)| p == "/table/row").unwrap().1,
        vec!["/table/row/cell".to_owned()],
        "bookkeeping records only the filtered children"
    );
    assert!(ids.get("/table/row/x1").is_none(), "no id allocated for the unknown child");
}

#[test]
fn merge_replaces_same_id_nodes_appends_new_and_adopts_focus() {
    let mut ids = NodeIdMap::new();
    let root_id = ids.id_for("/win");
    let extra_id = ids.id_for("/extra");
    let mut full = TreeUpdate {
        nodes: vec![(root_id, Node::new(A::Window))],
        tree: Some(Tree { root: root_id }),
        focus: root_id,
    };
    let mut replacement = Node::new(A::Window);
    replacement.set_label("fresh");
    let splice = TreeUpdate {
        nodes: vec![
            (root_id, replacement),
            (extra_id, Node::new(A::Cell)),
        ],
        tree: None,
        focus: extra_id,
    };

    merge_update(&mut full, splice);

    assert_eq!(full.nodes.len(), 2);
    assert_eq!(full.nodes[0].1.label(), Some("fresh".into()));
    assert_eq!(full.nodes[1].0, extra_id);
    assert_eq!(full.focus, extra_id);
    assert!(full.tree.is_some(), "merge never clears the full update's tree");
}

#[test]
fn consumer_applies_spliced_cell_focus() {
    let mut root = leaf("/win", Role::Frame, "w");
    root.children = vec!["/table".into()];
    let table = leaf("/table", Role::Table, "grid");
    let mut ids = NodeIdMap::new();
    let mut caches = WindowCache::default();
    let full = build_window_update(&[root, table], &mut ids, &mut caches);
    let mut tree = accesskit_consumer::Tree::new(wire(&full), false);

    let mut fresh_table = leaf("/table", Role::Table, "grid");
    fresh_table.children = vec!["/table/cell".into()];
    let cell = leaf("/table/cell", Role::TableCell, "A1");
    let known = PathSet::of(&["/win".to_owned(), "/table".to_owned()]);
    let result = splice_chain_update(
        &[fresh_table, cell],
        &[],
        &known,
        &mut ids,
        &mut caches,
    )
    .expect("chain splices");
    let cell_id = ids.get("/table/cell").unwrap();

    tree.update_and_process_changes(wire(&result.update), &mut NoOpChanges);

    let state = tree.state();
    let cell_node = state
        .node_by_tree_local_id(wire_id(cell_id), accesskit::TreeId::ROOT)
        .expect("spliced cell present in consumer tree");
    assert_eq!(state.focus_id_in_tree(), cell_node.id());
    assert_eq!(cell_node.role(), accesskit::Role::Cell);
}

#[test]
fn consumer_survives_rewalk_that_drops_the_spliced_focus() {
    let mut root = leaf("/win", Role::Frame, "w");
    root.children = vec!["/table".into()];
    let table = leaf("/table", Role::Table, "grid");
    let walk_nodes = vec![root, table];
    let known = PathSet::of(&["/win".to_owned(), "/table".to_owned()]);
    let chain = || {
        let mut fresh_table = leaf("/table", Role::Table, "grid");
        fresh_table.children = vec!["/table/cell".into()];
        vec![fresh_table, leaf("/table/cell", Role::TableCell, "A1")]
    };

    let mut ids = NodeIdMap::new();
    let mut caches = WindowCache::default();
    let full_a = build_window_update(&walk_nodes, &mut ids, &mut caches);
    let mut tree = accesskit_consumer::Tree::new(wire(&full_a), false);

    let splice = splice_chain_update(&chain(), &[], &known, &mut ids, &mut caches)
        .expect("chain splices");
    let cell_id = ids.get("/table/cell").unwrap();
    assert_eq!(splice.update.focus, cell_id);
    tree.update_and_process_changes(wire(&splice.update), &mut NoOpChanges);

    let mut full_b = build_window_update(&walk_nodes, &mut ids, &mut caches);
    assert_ne!(full_b.focus, cell_id, "the walk alone reverts focus");
    let resplice = splice_chain_update(&chain(), &[], &known, &mut ids, &mut caches)
        .expect("re-splice applies");
    merge_update(&mut full_b, resplice.update);
    tree.update_and_process_changes(wire(&full_b), &mut NoOpChanges);

    let state = tree.state();
    let cell_node = state
        .node_by_tree_local_id(wire_id(cell_id), accesskit::TreeId::ROOT)
        .expect("cell survives the merged rewalk");
    assert_eq!(state.focus_id_in_tree(), cell_node.id());
}

#[test]
fn value_interface_state_reaches_accesskit_range_properties() {
    let mut node = leaf("/slider", Role::Slider, "Volume");
    node.value = Some(value_state(5.0, 0.0, 10.0, 1.0));

    let update = build(std::slice::from_ref(&node), &mut NodeIdMap::new());
    let built = &update.nodes[0].1;

    assert_eq!(built.numeric_value(), Some(5.0));
    assert_eq!(built.min_numeric_value(), Some(0.0));
    assert_eq!(built.max_numeric_value(), Some(10.0));
    assert_eq!(built.numeric_value_step(), Some(1.0));
}

#[test]
fn degenerate_value_range_emits_only_the_current_value() {
    let mut flat_range = leaf("/flat", Role::Slider, "Flat");
    flat_range.value = Some(value_state(3.0, 4.0, 4.0, 1.0));

    let mut nan_step = leaf("/nan-step", Role::Slider, "Jumpy");
    nan_step.value =
        Some(value_state(3.0, 0.0, 10.0, f64::NAN));

    for node in [flat_range, nan_step] {
        let update = build(std::slice::from_ref(&node), &mut NodeIdMap::new());
        let built = &update.nodes[0].1;
        assert_eq!(built.numeric_value(), Some(3.0), "{}", node.path);
        assert_eq!(built.min_numeric_value(), None, "{}", node.path);
        assert_eq!(built.max_numeric_value(), None, "{}", node.path);
        assert_eq!(built.numeric_value_step(), None, "{}", node.path);
    }
}

#[test]
fn table_counts_reach_accesskit() {
    let mut grid = leaf("/grid", Role::Table, "Grid");
    grid.table = Some(TableState { rows: 5, columns: 3 });
    let update = build(std::slice::from_ref(&grid), &mut NodeIdMap::new());
    let built = &update.nodes[0].1;
    assert_eq!(built.row_count(), Some(5));
    assert_eq!(built.column_count(), Some(3));

    let mut negative_counts = leaf("/broken-grid", Role::Table, "Broken");
    negative_counts.table = Some(TableState { rows: -1, columns: -1 });
    let update = build(std::slice::from_ref(&negative_counts), &mut NodeIdMap::new());
    let built = &update.nodes[0].1;
    assert_eq!(built.row_count(), None);
    assert_eq!(built.column_count(), None);
}

#[test]
fn cell_coordinates_reach_accesskit() {
    let mut cell = leaf("/grid/cell", Role::TableCell, "A1");
    cell.cell = Some(CellState { row: 2, column: 3, row_span: 1, column_span: 2 });
    let update = build(std::slice::from_ref(&cell), &mut NodeIdMap::new());
    let built = &update.nodes[0].1;
    assert_eq!(built.row_index(), Some(2));
    assert_eq!(built.column_index(), Some(3));
    assert_eq!(built.row_span(), Some(1));
    assert_eq!(built.column_span(), Some(2));

    let mut spanless = leaf("/grid/spanless", Role::TableCell, "B1");
    spanless.cell = Some(CellState { row: 4, column: 0, row_span: 0, column_span: -1 });
    let update = build(std::slice::from_ref(&spanless), &mut NodeIdMap::new());
    let built = &update.nodes[0].1;
    assert_eq!(built.row_index(), Some(4));
    assert_eq!(built.column_index(), Some(0));
    assert_eq!(built.row_span(), None);
    assert_eq!(built.column_span(), None);
}

#[test]
fn value_reads_are_gated_to_value_bearing_roles() {
    for role in [
        Role::Slider,
        Role::SpinButton,
        Role::ProgressBar,
        Role::LevelBar,
        Role::ScrollBar,
        Role::Dial,
    ] {
        assert!(role_reads_value(role), "{role:?} carries a value");
    }
    for role in [Role::MenuItem, Role::TableCell, Role::Label, Role::Paragraph] {
        assert!(!role_reads_value(role), "{role:?} must not read Value");
    }
}

// --- Object attributes and relations (Phase 5) ---

#[test]
fn parse_attributes_reads_placeholder_level_posinset_and_setsize() {
    let mut map: StringHashMap<String> = StringHashMap::new();
    map.insert("placeholder-text".to_owned(), "Search…".to_owned());
    map.insert("level".to_owned(), "2".to_owned());
    map.insert("posinset".to_owned(), "3".to_owned());
    map.insert("setsize".to_owned(), "9".to_owned());
    let attrs = parse_attributes(&map);
    assert_eq!(attrs.placeholder, Some("Search…".to_owned()));
    assert_eq!(attrs.level, Some(2));
    assert_eq!(attrs.position_in_set, Some(3));
    assert_eq!(attrs.size_of_set, Some(9));

    let mut bad: StringHashMap<String> = StringHashMap::new();
    bad.insert("level".to_owned(), "x".to_owned());
    bad.insert("placeholder-text".to_owned(), String::new());
    bad.insert("posinset".to_owned(), "-1".to_owned());
    let bad_attrs = parse_attributes(&bad);
    assert_eq!(bad_attrs.level, None, "non-numeric level is dropped");
    assert_eq!(bad_attrs.placeholder, None, "empty placeholder-text is dropped");
    assert_eq!(bad_attrs.position_in_set, None, "negative posinset is dropped");

    let mut unknown: StringHashMap<String> = StringHashMap::new();
    unknown.insert("toolkit".to_owned(), "gtk".to_owned());
    unknown.insert("keyshortcuts".to_owned(), "Ctrl+F".to_owned());
    unknown.insert("xml-roles".to_owned(), "search".to_owned());
    assert_eq!(
        parse_attributes(&unknown),
        NodeAttributes::default(),
        "unrecognized keys are ignored"
    );
}

#[test]
fn attribute_reads_are_gated_to_roles_that_can_carry_them() {
    for role in [
        Role::Text,
        Role::PasswordText,
        Role::Entry,
        Role::Editbar,
        Role::Terminal,
        Role::Heading,
        Role::ListItem,
        Role::TreeItem,
        Role::RadioButton,
        Role::PageTab,
        Role::TableCell,
    ] {
        assert!(role_reads_attributes(role), "{role:?} should read attributes");
    }
    for role in [
        Role::MenuItem,
        Role::CheckMenuItem,
        Role::RadioMenuItem,
        Role::Panel,
        Role::Filler,
        Role::Label,
        Role::Paragraph,
    ] {
        assert!(!role_reads_attributes(role), "{role:?} should not read attributes");
    }

    for role in [
        Role::Panel,
        Role::Grouping,
        Role::PageTab,
        Role::ToggleButton,
        Role::Button,
        Role::CheckBox,
        Role::RadioButton,
        Role::Text,
        Role::ScrollBar,
        Role::ScrollPane,
        Role::ComboBox,
        Role::SpinButton,
        Role::Slider,
    ] {
        assert!(role_reads_relations(role), "{role:?} should read relations");
    }
    for role in [
        Role::MenuItem,
        Role::CheckMenuItem,
        Role::Filler,
        Role::Label,
        Role::Paragraph,
        Role::ListItem,
        Role::TableCell,
        Role::Section,
    ] {
        assert!(!role_reads_relations(role), "{role:?} should not read relations");
    }
}

#[test]
fn relations_map_to_accesskit_and_drop_unwalked_targets() {
    let mut a = leaf("/a", Role::Panel, "A");
    let b = leaf("/b", Role::Panel, "B");
    a.relations = vec![
        Relation {
            kind: RelationKind::LabelledBy,
            targets: vec![b.path.clone(), "/unwalked/path".to_owned()],
        },
        Relation { kind: RelationKind::Controls, targets: vec![b.path.clone()] },
    ];

    let mut ids = NodeIdMap::new();
    let update = build(&[a, b], &mut ids);
    let b_id = ids.get("/b").expect("B was walked");
    let a_id = ids.get("/a").unwrap();
    let a_node = &update.nodes.iter().find(|(id, _)| *id == a_id).unwrap().1;

    assert_eq!(a_node.labelled_by(), &[b_id], "labelled_by resolves the walked target");
    assert_eq!(a_node.controls(), &[b_id], "controls resolves the walked target");
    assert_eq!(
        ids.get("/unwalked/path"),
        None,
        "a relation target that was never walked allocates no id"
    );
}

#[test]
fn forward_relations_reach_accesskit_by_kind() {
    let mut a = leaf("/a", Role::Text, "A");
    let target = leaf("/target", Role::Panel, "T");
    a.relations = vec![
        Relation { kind: RelationKind::DescribedBy, targets: vec![target.path.clone()] },
        Relation { kind: RelationKind::Details, targets: vec![target.path.clone()] },
        Relation { kind: RelationKind::ErrorMessage, targets: vec![target.path.clone()] },
    ];

    let mut ids = NodeIdMap::new();
    let update = build(&[a, target], &mut ids);
    let target_id = ids.get("/target").unwrap();
    let a_id = ids.get("/a").unwrap();
    let a_node = &update.nodes.iter().find(|(id, _)| *id == a_id).unwrap().1;

    assert_eq!(a_node.described_by(), &[target_id]);
    assert_eq!(a_node.details(), &[target_id]);
    assert_eq!(a_node.error_message(), Some(target_id));
}

#[test]
fn popup_for_is_parsed_but_never_emitted() {
    assert_eq!(map_relation(RelationType::PopupFor), Some(RelationKind::PopupFor));

    let mut modal = leaf("/popup", Role::Panel, "Popup");
    let owner = leaf("/owner", Role::Panel, "Owner");
    modal.relations =
        vec![Relation { kind: RelationKind::PopupFor, targets: vec![owner.path.clone()] }];

    let mut ids = NodeIdMap::new();
    let update = build(&[modal, owner], &mut ids);
    let modal_id = ids.get("/popup").unwrap();
    let modal_node = &update.nodes.iter().find(|(id, _)| *id == modal_id).unwrap().1;

    assert!(modal_node.labelled_by().is_empty());
    assert!(modal_node.controls().is_empty());
    assert!(modal_node.described_by().is_empty());
    assert!(modal_node.details().is_empty());
    assert!(modal_node.error_message().is_none());
}

#[test]
fn map_relation_consumes_forward_directions_only() {
    for reverse in [RelationType::LabelFor, RelationType::ControlledBy, RelationType::DescriptionFor]
    {
        assert_eq!(map_relation(reverse), None, "{reverse:?} is the reverse direction");
    }
    assert_eq!(map_relation(RelationType::LabelledBy), Some(RelationKind::LabelledBy));
    assert_eq!(map_relation(RelationType::ControllerFor), Some(RelationKind::Controls));
    assert_eq!(map_relation(RelationType::DescribedBy), Some(RelationKind::DescribedBy));
    assert_eq!(map_relation(RelationType::Details), Some(RelationKind::Details));
    assert_eq!(map_relation(RelationType::ErrorMessage), Some(RelationKind::ErrorMessage));
}

#[test]
fn attributes_reach_accesskit_node_properties() {
    let mut root = leaf("/win", Role::Frame, "w");
    root.children = vec!["/search".into(), "/heading".into()];
    let mut search = leaf("/search", Role::Text, "");
    search.attributes.placeholder = Some("Search…".to_owned());
    let mut heading = leaf("/heading", Role::Heading, "Title");
    heading.attributes.level = Some(2);
    heading.attributes.position_in_set = Some(3);
    heading.attributes.size_of_set = Some(9);

    let mut ids = NodeIdMap::new();
    let update = build(&[root, search, heading], &mut ids);
    let node = |path: &str| {
        let id = ids.get(path).unwrap();
        update.nodes.iter().find(|(i, _)| *i == id).unwrap().1.clone()
    };

    assert_eq!(node("/search").placeholder(), Some("Search…"));
    assert_eq!(node("/heading").level(), Some(2));
    assert_eq!(node("/heading").position_in_set(), Some(3));
    assert_eq!(node("/heading").size_of_set(), Some(9));
}

#[test]
fn refresh_node_preserves_relations_on_unchanged_reads() {
    let mut root = leaf("/win", Role::Frame, "w");
    root.children = vec!["/a".into(), "/b".into()];
    let mut a = leaf("/a", Role::Panel, "A");
    let b = leaf("/b", Role::Panel, "B");
    a.relations = vec![Relation { kind: RelationKind::LabelledBy, targets: vec![b.path.clone()] }];

    let mut ids = NodeIdMap::new();
    let mut cache = WindowCache::default();
    build_window_update(&[root.clone(), a.clone(), b.clone()], &mut ids, &mut cache);
    let a_id = ids.get("/a").unwrap();

    // Refreshing with the identical relation set emits nothing.
    let unchanged =
        refresh_node(&a, a_id, &[], &mut ids, &mut cache);
    assert!(unchanged.is_none(), "identical relation set yields no delta");

    // Retargeting the relation must be picked up as a change.
    let mut retargeted = a.clone();
    retargeted.relations =
        vec![Relation { kind: RelationKind::LabelledBy, targets: vec!["/other".to_owned()] }];
    let changed = refresh_node(&retargeted, a_id, &[], &mut ids, &mut cache);
    assert!(changed.is_some(), "a retargeted relation must be re-emitted");
}