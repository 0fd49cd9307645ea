//! What walked AT-SPI objects become in tree updates: whole windows, single
//! nodes, changed texts, and chains spliced into a window that is already known.

use crate::atspi::ids::all_known;
use crate::atspi::ids::extends;
use crate::atspi::ids::ids_at;
use crate::atspi::ids::lemma_extends_transitive;
use crate::atspi::ids::lemma_with_paths_extends;
use crate::atspi::ids::lemma_with_paths_push;
use crate::atspi::ids::with_paths;
use crate::atspi::ids::NodeIdMap;
use crate::atspi::ids::PathSet;
use crate::atspi::node::clickable;
use crate::atspi::node::has_caret;
use crate::atspi::node::has_text_caret;
use crate::atspi::node::is_clickable_role;
use crate::atspi::node::is_control;
use crate::atspi::node::is_toggleable_role;
use crate::atspi::node::map_role;
use crate::atspi::node::nearest_role;
use crate::atspi::node::refine_role;
use crate::atspi::node::refined;
use crate::atspi::node::toggleable;
use crate::atspi::node::CellState;
use crate::atspi::node::CharExtent;
use crate::atspi::node::MirrorNode;
use crate::atspi::node::Relation;
use crate::atspi::node::RelationKind;
use crate::atspi::node::TableState;
use crate::atspi::node::TextState;
use crate::atspi::node::ValueState;
use crate::atspi::text::build_text_runs;
use crate::atspi::text::run_layout;
use crate::atspi::text::run_nodes;
use crate::atspi::text::selection_of;
use crate::atspi::text::slice_view;
use crate::atspi::text::text_selection;
use crate::atspi::text::with_runs;
use crate::atspi::text::TextRunLayout;
use crate::atspi::vocabulary::Interface;
use crate::atspi::vocabulary::Role;
use crate::number::Float64;
use crate::strings::contains;
use crate::strings::views;
use crate::tree;
use crate::tree::bare_node;
use crate::tree::copy_ids;
use crate::tree::copy_nodes;
use crate::tree::copy_text;
use crate::tree::ids_of;
use crate::tree::list_view;
use crate::tree::node_ids;
use crate::tree::node_views;
use crate::tree::text_view;
use crate::tree::Actions;
use crate::tree::HasPopup;
use crate::tree::Invalid;
use crate::tree::Node;
use crate::tree::NodeId;
use crate::tree::NodeView;
use crate::tree::Properties;
use crate::tree::Rect;
use crate::tree::Toggled;
use vstd::hash_map::StringHashMap;
use vstd::prelude::*;

verus! {

// ---------------------------------------------------------------- containers

/// The bounds of an object that covers some area.
pub open spec fn bounds_of(extent: Option<CharExtent>) -> Option<Rect> {
    match extent {
        Some(e) => if e.width > 0 && e.height > 0 {
            Some(
                Rect {
                    x0: e.x as i64,
                    y0: e.y as i64,
                    x1: (e.x + e.width) as i64,
                    y1: (e.y + e.height) as i64,
                },
            )
        } else {
            None
        },
        None => None,
    }
}

fn container_bounds(extent: Option<CharExtent>) -> (bounds: Option<Rect>)
    ensures
        bounds == bounds_of(extent),
{
    match extent {
        Some(e) => if e.width > 0 && e.height > 0 {
            Some(
                Rect {
                    x0: e.x as i64,
                    y0: e.y as i64,
                    x1: e.x as i64 + e.width as i64,
                    y1: e.y as i64 + e.height as i64,
                },
            )
        } else {
            None
        },
        None => None,
    }
}

/// The toggle state of a node. A role that is inherently a toggle has one even
/// when the toolkit reports none.
pub open spec fn toggle_of(role: Role, reported: Option<Toggled>) -> Option<Toggled> {
    match reported {
        Some(toggled) => Some(toggled),
        None => if toggleable(role) {
            Some(Toggled::False)
        } else {
            None
        },
    }
}

fn toggle_from(role: Role, reported: Option<Toggled>) -> (toggled: Option<Toggled>)
    ensures
        toggled == toggle_of(role, reported),
{
    match reported {
        Some(toggled) => Some(toggled),
        None => if is_toggleable_role(role) {
            Some(Toggled::False)
        } else {
            None
        },
    }
}

pub open spec fn popup_of(has_popup: bool) -> Option<HasPopup> {
    if has_popup {
        Some(HasPopup::Menu)
    } else {
        None
    }
}

fn popup_from(has_popup: bool) -> (popup: Option<HasPopup>)
    ensures
        popup == popup_of(has_popup),
{
    if has_popup {
        Some(HasPopup::Menu)
    } else {
        None
    }
}

pub open spec fn invalid_of(invalid: bool) -> Option<Invalid> {
    if invalid {
        Some(Invalid::True)
    } else {
        None
    }
}

fn invalid_from(invalid: bool) -> (mark: Option<Invalid>)
    ensures
        mark == invalid_of(invalid),
{
    if invalid {
        Some(Invalid::True)
    } else {
        None
    }
}

/// Whether a node is disabled. Only a control can be: a layout box reports
/// itself operable no more than a disabled control does.
pub open spec fn disabled_of(node: MirrorNode) -> bool {
    !node.states.sensitive && node.control()
}

/// Whether a node declares that it can be clicked.
pub open spec fn click_of(node: MirrorNode) -> bool {
    node.actionable() && clickable(node.role)
}

/// The current number of a value interface, if it is one.
pub open spec fn number_of(value: Option<ValueState>) -> Option<Float64> {
    match value {
        Some(v) => if v.current.finite() {
            Some(v.current)
        } else {
            None
        },
        None => None,
    }
}

/// A value interface with a usable range around a usable number.
pub open spec fn range_of(value: Option<ValueState>) -> Option<ValueState> {
    match value {
        Some(v) => if v.current.finite() && v.minimum.finite() && v.maximum.finite()
            && v.step.finite() && v.minimum.value() < v.maximum.value() {
            Some(v)
        } else {
            None
        },
        None => None,
    }
}

pub open spec fn minimum_of(range: Option<ValueState>) -> Option<Float64> {
    match range {
        Some(v) => Some(v.minimum),
        None => None,
    }
}

pub open spec fn maximum_of(range: Option<ValueState>) -> Option<Float64> {
    match range {
        Some(v) => Some(v.maximum),
        None => None,
    }
}

pub open spec fn step_of(range: Option<ValueState>) -> Option<Float64> {
    match range {
        Some(v) => Some(v.step),
        None => None,
    }
}

/// The numeric properties of a node: current number, minimum, maximum, step.
fn numbers_from(value: Option<ValueState>) -> (numbers: (
    Option<Float64>,
    Option<Float64>,
    Option<Float64>,
    Option<Float64>,
))
    ensures
        numbers.0 == number_of(value),
        numbers.1 == minimum_of(range_of(value)),
        numbers.2 == maximum_of(range_of(value)),
        numbers.3 == step_of(range_of(value)),
{
    match value {
        Some(v) => if !v.current.is_finite() {
            (None, None, None, None)
        } else if v.minimum.is_finite() && v.maximum.is_finite() && v.step.is_finite()
            && v.minimum.less(v.maximum) {
            (Some(v.current), Some(v.minimum), Some(v.maximum), Some(v.step))
        } else {
            (Some(v.current), None, None, None)
        },
        None => (None, None, None, None),
    }
}

/// A count or index that is not negative.
pub open spec fn unsigned(n: i32) -> Option<usize> {
    if n >= 0 {
        Some(n as usize)
    } else {
        None
    }
}

/// A span that covers something.
pub open spec fn positive(n: i32) -> Option<usize> {
    if n > 0 {
        Some(n as usize)
    } else {
        None
    }
}

fn count_from(n: i32) -> (count: Option<usize>)
    ensures
        count == unsigned(n),
{
    if n >= 0 {
        Some(n as usize)
    } else {
        None
    }
}

fn span_from(n: i32) -> (span: Option<usize>)
    ensures
        span == positive(n),
{
    if n > 0 {
        Some(n as usize)
    } else {
        None
    }
}

/// The row and column count of a table.
pub open spec fn counts_of(table: Option<TableState>) -> (Option<usize>, Option<usize>) {
    match table {
        Some(t) => (unsigned(t.rows), unsigned(t.columns)),
        None => (None, None),
    }
}

fn counts_from(table: Option<TableState>) -> (counts: (Option<usize>, Option<usize>))
    ensures
        counts == counts_of(table),
{
    match table {
        Some(t) => (count_from(t.rows), count_from(t.columns)),
        None => (None, None),
    }
}

/// The row and column of a cell.
pub open spec fn cell_index_of(cell: Option<CellState>) -> (Option<usize>, Option<usize>) {
    match cell {
        Some(c) => (unsigned(c.row), unsigned(c.column)),
        None => (None, None),
    }
}

/// How many rows and columns a cell spans.
pub open spec fn cell_span_of(cell: Option<CellState>) -> (Option<usize>, Option<usize>) {
    match cell {
        Some(c) => (positive(c.row_span), positive(c.column_span)),
        None => (None, None),
    }
}

fn cell_index_from(cell: Option<CellState>) -> (index: (Option<usize>, Option<usize>))
    ensures
        index == cell_index_of(cell),
{
    match cell {
        Some(c) => (count_from(c.row), count_from(c.column)),
        None => (None, None),
    }
}

fn cell_span_from(cell: Option<CellState>) -> (span: (Option<usize>, Option<usize>))
    ensures
        span == cell_span_of(cell),
{
    match cell {
        Some(c) => (span_from(c.row_span), span_from(c.column_span)),
        None => (None, None),
    }
}

/// A text that is not empty.
pub open spec fn nonempty(text: Seq<char>) -> Option<Seq<char>> {
    if text.len() > 0 {
        Some(text)
    } else {
        None
    }
}

fn nonempty_copy(text: &String) -> (copy: Option<String>)
    ensures
        text_view(copy) == nonempty(text@),
{
    if text.as_str().is_empty() {
        None
    } else {
        Some(text.clone())
    }
}

/// The role a node is emitted with.
pub open spec fn role_of(node: MirrorNode) -> tree::Role {
    refined(nearest_role(node.role), node)
}

/// The plain properties of a node that come from its own read.
#[verifier::opaque]
pub open spec fn properties_of(node: MirrorNode) -> Properties {
    Properties {
        role: role_of(node),
        actions: Actions {
            click: click_of(node),
            focus: node.states.focusable,
            expand: false,
            collapse: false,
            increment: false,
            decrement: false,
            set_value: false,
        },
        toggled: toggle_of(node.role, node.states.toggled),
        expanded: node.states.expanded,
        selected: node.states.selected,
        has_popup: popup_of(node.states.has_popup),
        hidden: false,
        disabled: disabled_of(node),
        read_only: node.states.read_only,
        required: node.states.required,
        modal: node.states.modal,
        multiselectable: node.states.multiselectable,
        busy: node.states.busy,
        invalid: invalid_of(node.states.invalid),
        orientation: node.states.orientation,
        bounds: bounds_of(node.bounds),
        numeric_value: number_of(node.value),
        min_numeric_value: minimum_of(range_of(node.value)),
        max_numeric_value: maximum_of(range_of(node.value)),
        numeric_value_step: step_of(range_of(node.value)),
        row_count: counts_of(node.table).0,
        column_count: counts_of(node.table).1,
        row_index: cell_index_of(node.cell).0,
        column_index: cell_index_of(node.cell).1,
        row_span: cell_span_of(node.cell).0,
        column_span: cell_span_of(node.cell).1,
        level: node.attributes.level,
        position_in_set: node.attributes.position_in_set,
        size_of_set: node.attributes.size_of_set,
        error_message: None,
        text_selection: None,
        text_direction: None,
    }
}

/// Everything about a node that comes from its own read: role, name,
/// description, states, actions, bounds, number, table and attributes.
pub open spec fn container_of(node: MirrorNode) -> NodeView {
    let is_label = role_of(node) == tree::Role::Label;
    NodeView {
        props: properties_of(node),
        // A label's text is its content, not a name for something else.
        label: if is_label {
            None
        } else {
            nonempty(node.name@)
        },
        value: if is_label {
            nonempty(node.name@)
        } else {
            None
        },
        // A description that echoes the name says nothing new.
        description: if node.description@ == node.name@ {
            None
        } else {
            nonempty(node.description@)
        },
        placeholder: text_view(node.attributes.placeholder),
        ..bare_node(role_of(node))
    }
}

fn container_properties(node: &MirrorNode) -> (props: Properties)
    ensures
        props == properties_of(*node),
{
    reveal(properties_of);
    let numbers: (Option<Float64>, Option<Float64>, Option<Float64>, Option<Float64>) =
        numbers_from(node.value);
    let counts: (Option<usize>, Option<usize>) = counts_from(node.table);
    let index: (Option<usize>, Option<usize>) = cell_index_from(node.cell);
    let span: (Option<usize>, Option<usize>) = cell_span_from(node.cell);
    Properties {
        role: refine_role(map_role(node.role), node),
        actions: Actions {
            click: node.is_actionable() && is_clickable_role(node.role),
            focus: node.states.focusable,
            expand: false,
            collapse: false,
            increment: false,
            decrement: false,
            set_value: false,
        },
        toggled: toggle_from(node.role, node.states.toggled),
        expanded: node.states.expanded,
        selected: node.states.selected,
        has_popup: popup_from(node.states.has_popup),
        hidden: false,
        disabled: !node.states.sensitive && is_control(node),
        read_only: node.states.read_only,
        required: node.states.required,
        modal: node.states.modal,
        multiselectable: node.states.multiselectable,
        busy: node.states.busy,
        invalid: invalid_from(node.states.invalid),
        orientation: node.states.orientation,
        bounds: container_bounds(node.bounds),
        numeric_value: numbers.0,
        min_numeric_value: numbers.1,
        max_numeric_value: numbers.2,
        numeric_value_step: numbers.3,
        row_count: counts.0,
        column_count: counts.1,
        row_index: index.0,
        column_index: index.1,
        row_span: span.0,
        column_span: span.1,
        level: node.attributes.level,
        position_in_set: node.attributes.position_in_set,
        size_of_set: node.attributes.size_of_set,
        error_message: None,
        text_selection: None,
        text_direction: None,
    }
}

/// Builds everything about a node that comes from its own read; see
/// [`container_of`]. Children, relations and text selection are added by the
/// caller, which knows the tree's structure.
pub fn build_container(node: &MirrorNode) -> (container: Node)
    ensures
        container@ == container_of(*node),
{
    let props: Properties = container_properties(node);
    assert(props.role == role_of(*node)) by {
        reveal(properties_of);
    }
    let is_label: bool = props.role == tree::Role::Label;
    let name: Option<String> = nonempty_copy(&node.name);
    let description: Option<String> = if node.description == node.name {
        None
    } else {
        nonempty_copy(&node.description)
    };
    let (label, value): (Option<String>, Option<String>) = if is_label {
        (None, name)
    } else {
        (name, None)
    };
    Node {
        props,
        label,
        value,
        description,
        placeholder: copy_text(&node.attributes.placeholder),
        children: Vec::new(),
        labelled_by: Vec::new(),
        controls: Vec::new(),
        described_by: Vec::new(),
        details: Vec::new(),
        character_lengths: Vec::new(),
        word_starts: Vec::new(),
        character_positions: None,
        character_widths: None,
    }
}

// ---------------------------------------------------------------- relations

/// The ids of those of `paths` that have one.
pub open spec fn resolved(ids: Map<Seq<char>, NodeId>, paths: Seq<Seq<char>>) -> Seq<NodeId>
    decreases paths.len(),
{
    if paths.len() == 0 {
        Seq::empty()
    } else {
        let before = resolved(ids, paths.drop_last());
        if ids.contains_key(paths.last()) {
            before.push(ids[paths.last()])
        } else {
            before
        }
    }
}

/// `node` with one relation added. Targets without an id are dropped, and a
/// relation that is left without a target adds nothing.
pub open spec fn related(
    node: NodeView,
    kind: RelationKind,
    targets: Seq<NodeId>,
) -> NodeView {
    if targets.len() == 0 {
        node
    } else {
        match kind {
            RelationKind::LabelledBy => NodeView { labelled_by: targets, ..node },
            RelationKind::Controls => NodeView { controls: targets, ..node },
            RelationKind::DescribedBy => NodeView { described_by: targets, ..node },
            RelationKind::Details => NodeView { details: targets, ..node },
            RelationKind::ErrorMessage => NodeView {
                props: Properties { error_message: Some(targets[0]), ..node.props },
                ..node
            },
            RelationKind::PopupFor => node,
        }
    }
}

/// `node` with all of `relations` added, in order.
pub open spec fn with_relations(
    node: NodeView,
    relations: Seq<Relation>,
    ids: Map<Seq<char>, NodeId>,
) -> NodeView
    decreases relations.len(),
{
    if relations.len() == 0 {
        node
    } else {
        let last = relations.last();
        related(
            with_relations(node, relations.drop_last(), ids),
            last.kind,
            resolved(ids, views(last.targets@)),
        )
    }
}

/// The ids of those of `paths` that have one.
fn resolve(paths: &[String], ids: &NodeIdMap) -> (targets: Vec<NodeId>)
    ensures
        targets@ == resolved(ids@, views(paths@)),
{
    let mut targets: Vec<NodeId> = Vec::new();
    for i in 0..paths.len()
        invariant
            targets@ == resolved(ids@, views(paths@).take(i as int)),
    {
        let ghost seen = views(paths@).take(i + 1);
        assert(seen.drop_last() =~= views(paths@).take(i as int));
        assert(seen.last() == paths@[i as int]@);
        match ids.get(paths[i].as_str()) {
            Some(id) => {
                targets.push(id);
            },
            None => {},
        }
    }
    assert(views(paths@).take(paths@.len() as int) =~= views(paths@));
    targets
}

/// Adds a node's relations to its container, resolving each target path to the
/// id it was walked under. An unwalked path stays unwalked rather than gaining
/// an id here.
pub fn apply_relations(container: &mut Node, relations: &[Relation], ids: &NodeIdMap)
    ensures
        final(container)@ == with_relations(old(container)@, relations@, ids@),
{
    for i in 0..relations.len()
        invariant
            container@ == with_relations(old(container)@, relations@.take(i as int), ids@),
    {
        let ghost seen = relations@.take(i + 1);
        assert(seen.drop_last() =~= relations@.take(i as int));
        assert(seen.last() == relations@[i as int]);
        let ghost before = container@;
        let targets: Vec<NodeId> = resolve(relations[i].targets.as_slice(), ids);
        let ghost resolved_targets = targets@;
        if targets.len() > 0 {
            match relations[i].kind {
                RelationKind::LabelledBy => {
                    container.labelled_by = targets;
                },
                RelationKind::Controls => {
                    container.controls = targets;
                },
                RelationKind::DescribedBy => {
                    container.described_by = targets;
                },
                RelationKind::Details => {
                    container.details = targets;
                },
                RelationKind::ErrorMessage => {
                    container.props.error_message = Some(targets[0]);
                },
                RelationKind::PopupFor => {},
            }
        }
        assert(container@ =~= related(before, relations@[i as int].kind, resolved_targets));
    }
    assert(relations@.take(relations@.len() as int) =~= relations@);
}

// ---------------------------------------------------------------- caches

/// What one text node last emitted, kept so that a text event can emit the
/// difference rather than a rebuild.
#[derive(Debug)]
pub struct TextNodeCache {
    pub node_id: NodeId,
    pub element_children: Vec<NodeId>,
    pub runs: Vec<(NodeId, Node)>,
    pub layout: Vec<TextRunLayout>,
    /// Whether the node's role has a caret, so that a later refresh re-reads
    /// the caret instead of leaving it cleared.
    pub caret_enabled: bool,
    /// The extents behind the runs' current geometry, reused by refreshes that
    /// read no geometry while the text's length is unchanged.
    pub extents: Option<Vec<CharExtent>>,
    /// The container's own bounds, anchoring an empty field's caret.
    pub container_bounds: Option<CharExtent>,
}

/// The contents of a [`TextNodeCache`].
#[verifier::ext_equal]
pub struct TextCacheView {
    pub node_id: NodeId,
    pub element_children: Seq<NodeId>,
    pub runs: Seq<(NodeId, NodeView)>,
    pub layout: Seq<TextRunLayout>,
    pub caret_enabled: bool,
    pub extents: Option<Seq<CharExtent>>,
    pub container_bounds: Option<CharExtent>,
}

impl View for TextNodeCache {
    type V = TextCacheView;

    open spec fn view(&self) -> TextCacheView {
        TextCacheView {
            node_id: self.node_id,
            element_children: self.element_children@,
            runs: node_views(self.runs@),
            layout: self.layout@,
            caret_enabled: self.caret_enabled,
            extents: list_view(self.extents),
            container_bounds: self.container_bounds,
        }
    }
}

/// What one window last emitted, by object path: `nodes` is the containers the
/// consumer holds, and `text` what a text delta is taken against.
pub struct WindowCache {
    pub nodes: StringHashMap<Node>,
    pub text: StringHashMap<TextNodeCache>,
}

/// The contents of a [`WindowCache`].
#[verifier::ext_equal]
pub struct WindowCacheView {
    pub nodes: Map<Seq<char>, NodeView>,
    pub text: Map<Seq<char>, TextCacheView>,
}

/// The contents of the nodes in a map.
pub open spec fn node_map(nodes: Map<Seq<char>, Node>) -> Map<Seq<char>, NodeView> {
    nodes.map_values(|n: Node| n@)
}

/// The contents of the text caches in a map.
pub open spec fn text_map(text: Map<Seq<char>, TextNodeCache>) -> Map<Seq<char>, TextCacheView> {
    text.map_values(|t: TextNodeCache| t@)
}

impl View for WindowCache {
    type V = WindowCacheView;

    open spec fn view(&self) -> WindowCacheView {
        WindowCacheView { nodes: node_map(self.nodes@), text: text_map(self.text@) }
    }
}

/// A cache of a window that has emitted nothing.
pub open spec fn empty_cache() -> WindowCacheView {
    WindowCacheView { nodes: Map::empty(), text: Map::empty() }
}

pub proof fn lemma_node_map_insert(nodes: Map<Seq<char>, Node>, path: Seq<char>, node: Node)
    ensures
        node_map(nodes.insert(path, node)) == node_map(nodes).insert(path, node@),
{
    assert(node_map(nodes.insert(path, node)) =~= node_map(nodes).insert(path, node@));
}

pub proof fn lemma_text_map_insert(
    text: Map<Seq<char>, TextNodeCache>,
    path: Seq<char>,
    cache: TextNodeCache,
)
    ensures
        text_map(text.insert(path, cache)) == text_map(text).insert(path, cache@),
{
    assert(text_map(text.insert(path, cache)) =~= text_map(text).insert(path, cache@));
}

pub proof fn lemma_text_map_remove(text: Map<Seq<char>, TextNodeCache>, path: Seq<char>)
    ensures
        text_map(text.remove(path)) == text_map(text).remove(path),
{
    assert(text_map(text.remove(path)) =~= text_map(text).remove(path));
}

impl WindowCache {
    pub fn new() -> (cache: Self)
        ensures
            cache@ == empty_cache(),
    {
        let cache = WindowCache { nodes: StringHashMap::new(), text: StringHashMap::new() };
        assert(cache@.nodes =~= Map::<Seq<char>, NodeView>::empty());
        assert(cache@.text =~= Map::<Seq<char>, TextCacheView>::empty());
        cache
    }
}

impl Default for WindowCache {
    fn default() -> (cache: Self)
        ensures
            cache@ == empty_cache(),
    {
        Self::new()
    }
}

// ---------------------------------------------------------------- nodes

/// Those of `paths` that are in `set`, in order.
pub open spec fn kept(paths: Seq<Seq<char>>, set: Set<Seq<char>>) -> Seq<Seq<char>>
    decreases paths.len(),
{
    if paths.len() == 0 {
        Seq::empty()
    } else {
        let before = kept(paths.drop_last(), set);
        if set.contains(paths.last()) {
            before.push(paths.last())
        } else {
            before
        }
    }
}

/// A built node: its container, the text runs under it, what to remember of a
/// text, and the ids after building.
pub struct BuiltView {
    pub ids: Map<Seq<char>, NodeId>,
    pub container: NodeView,
    pub runs: Seq<(NodeId, NodeView)>,
    pub cache: Option<TextCacheView>,
}

/// `node` with the children it is given and the selection it has.
pub open spec fn with_structure(
    node: NodeView,
    children: Seq<NodeId>,
    selection: Option<tree::TextSelection>,
) -> NodeView {
    NodeView {
        props: Properties { text_selection: selection, ..node.props },
        children,
        ..node
    }
}

/// A text node: its container with its element children and its runs under it,
/// and what to remember of it.
pub open spec fn built_text(
    node: MirrorNode,
    state: TextState,
    own: NodeView,
    element_children: Seq<NodeId>,
    id: NodeId,
    ids: Map<Seq<char>, NodeId>,
) -> BuiltView {
    let after = with_runs(ids, node.path@, state.text@);
    let runs = run_nodes(after, node.path@, state.text@, list_view(state.extents), node.bounds);
    let layout = run_layout(after, node.path@, state.text@);
    BuiltView {
        ids: after,
        container: with_structure(
            own,
            element_children + node_ids(runs),
            selection_of(state.caret, state.selection, layout),
        ),
        runs,
        cache: Some(
            TextCacheView {
                node_id: id,
                element_children,
                runs,
                layout,
                caret_enabled: has_caret(node.role),
                extents: list_view(state.extents),
                container_bounds: node.bounds,
            },
        ),
    }
}

/// The node that `node` is built into, given the paths of its `children`, of
/// which only those `walked` are kept.
pub open spec fn built(
    node: MirrorNode,
    children: Seq<Seq<char>>,
    id: NodeId,
    ids: Map<Seq<char>, NodeId>,
    walked: Set<Seq<char>>,
) -> BuiltView {
    let own = with_relations(container_of(node), node.relations@, ids);
    let paths = kept(children, walked);
    let with_children = with_paths(ids, paths);
    let element_children = ids_at(with_children, paths);
    match node.text {
        Some(state) => built_text(node, state, own, element_children, id, with_children),
        None => BuiltView {
            ids: with_children,
            container: with_structure(own, element_children, None),
            runs: Seq::empty(),
            cache: None,
        },
    }
}

/// A built node; see [`built`].
pub struct BuiltNode {
    pub container: Node,
    pub runs: Vec<(NodeId, Node)>,
    pub cache: Option<TextNodeCache>,
}

/// The contents of an optional text cache.
pub open spec fn cache_view(cache: Option<TextNodeCache>) -> Option<TextCacheView> {
    match cache {
        Some(c) => Some(c@),
        None => None,
    }
}

/// The ids of those of `children` that were walked, allocating one where there
/// is none.
fn element_ids(children: &[String], walked: &PathSet, ids: &mut NodeIdMap) -> (list: Vec<NodeId>)
    requires
        old(ids).wf(),
    ensures
        final(ids).wf(),
        final(ids)@ == with_paths(old(ids)@, kept(views(children@), walked@)),
        extends(final(ids)@, old(ids)@),
        list@ == ids_at(final(ids)@, kept(views(children@), walked@)),
{
    let mut list: Vec<NodeId> = Vec::new();
    let ghost all = views(children@);
    for i in 0..children.len()
        invariant
            all == views(children@),
            ids.wf(),
            ids@ == with_paths(old(ids)@, kept(all.take(i as int), walked@)),
            list@ == ids_at(ids@, kept(all.take(i as int), walked@)),
            all_known(ids@, kept(all.take(i as int), walked@)),
    {
        let ghost seen = kept(all.take(i as int), walked@);
        let ghost more = kept(all.take(i + 1), walked@);
        let ghost before = ids@;
        assert(all.take(i + 1).drop_last() =~= all.take(i as int));
        assert(all.take(i + 1).last() == children@[i as int]@);
        if walked.contains(children[i].as_str()) {
            let id: NodeId = ids.id_for(children[i].as_str());
            list.push(id);
            proof {
                lemma_with_paths_push(old(ids)@, seen, children@[i as int]@);
                assert(more == seen.push(children@[i as int]@));
                assert(extends(ids@, before));
                assert forall|j: int| 0 <= j < more.len() implies ids@.contains_key(
                    #[trigger] more[j],
                ) && list@[j] == ids@[more[j]] by {
                    if j < seen.len() {
                        assert(before.contains_key(seen[j]));
                        assert(list@[j] == ids_at(before, seen)[j]);
                    }
                }
                assert(list@ =~= ids_at(ids@, more));
            }
        }
    }
    proof {
        assert(all.take(children@.len() as int) =~= all);
        lemma_with_paths_extends(old(ids)@, kept(all, walked@));
    }
    list
}

/// The slice behind an optional list.
pub fn slice_of(list: &Option<Vec<CharExtent>>) -> (slice: Option<&[CharExtent]>)
    ensures
        slice_view(slice) == list_view(*list),
{
    match list {
        Some(v) => Some(v.as_slice()),
        None => None,
    }
}

pub fn copy_extents(list: &Option<Vec<CharExtent>>) -> (copy: Option<Vec<CharExtent>>)
    ensures
        list_view(copy) == list_view(*list),
{
    match list {
        Some(v) => {
            let mut copy: Vec<CharExtent> = Vec::new();
            copy.extend_from_slice(v.as_slice());
            assert(copy@ =~= v@);
            Some(copy)
        },
        None => None,
    }
}

/// `node` with the children it is given and the selection it has.
pub fn structured(
    node: Node,
    children: Vec<NodeId>,
    selection: Option<tree::TextSelection>,
) -> (result: Node)
    ensures
        result@ == with_structure(node@, children@, selection),
{
    let mut result: Node = node;
    result.children = children;
    result.props.text_selection = selection;
    result
}

/// Builds a text node around its container; see [`built_text`].
fn build_text_node(
    node: &MirrorNode,
    state: &TextState,
    own: Node,
    element_children: Vec<NodeId>,
    id: NodeId,
    ids: &mut NodeIdMap,
) -> (result: BuiltNode)
    requires
        old(ids).wf(),
    ensures
        final(ids).wf(),
        extends(final(ids)@, old(ids)@),
        ({
            let b = built_text(*node, *state, own@, element_children@, id, old(ids)@);
            &&& final(ids)@ == b.ids
            &&& result.container@ == b.container
            &&& node_views(result.runs@) == b.runs
            &&& cache_view(result.cache) == b.cache
        }),
{
    let (runs, layout) = build_text_runs(
        node.path.as_str(),
        state.text.as_str(),
        slice_of(&state.extents),
        node.bounds,
        ids,
    );
    let mut all: Vec<NodeId> = copy_ids(element_children.as_slice());
    let mut run_ids: Vec<NodeId> = ids_of(runs.as_slice());
    all.append(&mut run_ids);
    let selection: Option<tree::TextSelection> = text_selection(state, layout.as_slice());
    let container: Node = structured(own, all, selection);
    let cache = TextNodeCache {
        node_id: id,
        element_children,
        runs: copy_nodes(runs.as_slice()),
        layout,
        caret_enabled: has_text_caret(node.role),
        extents: copy_extents(&state.extents),
        container_bounds: node.bounds,
    };
    BuiltNode { container, runs, cache: Some(cache) }
}

/// Builds one node with the children it is given; see [`built`].
pub fn build_node(
    node: &MirrorNode,
    children: &[String],
    id: NodeId,
    ids: &mut NodeIdMap,
    walked: &PathSet,
) -> (result: BuiltNode)
    requires
        old(ids).wf(),
    ensures
        final(ids).wf(),
        extends(final(ids)@, old(ids)@),
        ({
            let b = built(*node, views(children@), id, old(ids)@, walked@);
            &&& final(ids)@ == b.ids
            &&& result.container@ == b.container
            &&& node_views(result.runs@) == b.runs
            &&& cache_view(result.cache) == b.cache
        }),
{
    let mut container: Node = build_container(node);
    apply_relations(&mut container, node.relations.as_slice(), ids);
    let element_children: Vec<NodeId> = element_ids(children, walked, ids);
    let ghost middle = ids@;
    match &node.text {
        Some(state) => {
            let result: BuiltNode = build_text_node(
                node,
                state,
                container,
                element_children,
                id,
                ids,
            );
            proof {
                lemma_extends_transitive(old(ids)@, middle, ids@);
            }
            result
        },
        None => {
            let runs: Vec<(NodeId, Node)> = Vec::new();
            assert(node_views(runs@) =~= Seq::<(NodeId, NodeView)>::empty());
            BuiltNode { container: structured(container, element_children, None), runs, cache: None }
        },
    }
}

// ---------------------------------------------------------------- what a node says

/// A node passes on what its object says of itself: whether it is open, selected, read
/// only, required, modal, busy, invalid or has a popup, which way it lies, and its level
/// and place in a set. Nothing that is said is dropped and nothing is added.
pub proof fn law_a_node_says_what_its_object_says(node: MirrorNode)
    ensures
        ({
            let (said, props) = (node.states, container_of(node).props);
            &&& props.selected == said.selected
            &&& props.expanded == said.expanded
            &&& props.read_only == said.read_only
            &&& props.required == said.required
            &&& props.modal == said.modal
            &&& props.multiselectable == said.multiselectable
            &&& props.busy == said.busy
            &&& props.orientation == said.orientation
            &&& props.has_popup == Some(HasPopup::Menu) <==> said.has_popup
            &&& props.has_popup is None <==> !said.has_popup
            &&& props.invalid == Some(Invalid::True) <==> said.invalid
            &&& props.invalid is None <==> !said.invalid
            &&& !props.hidden
            &&& said.toggled is Some ==> props.toggled == said.toggled
            &&& said.toggled is None && toggleable(node.role) ==> props.toggled == Some(
                Toggled::False,
            )
            &&& said.toggled is None && !toggleable(node.role) ==> props.toggled is None
            &&& props.level == node.attributes.level
            &&& props.position_in_set == node.attributes.position_in_set
            &&& props.size_of_set == node.attributes.size_of_set
        }),
{
    reveal(properties_of);
}

/// A node can be focused if its object takes focus, and clicked if its object offers
/// actions and is of a role that is clicked. It declares nothing else. Only a control
/// that is neither enabled nor sensitive is disabled.
pub proof fn law_a_node_is_operated_as_its_object_is(node: MirrorNode)
    ensures
        ({
            let props = container_of(node).props;
            let acts = node.interfaces@.contains(Interface::Action);
            &&& props.actions.focus == node.states.focusable
            &&& props.actions.click <==> acts && clickable(node.role)
            &&& !props.actions.expand
            &&& !props.actions.collapse
            &&& !props.actions.increment
            &&& !props.actions.decrement
            &&& !props.actions.set_value
            &&& props.disabled <==> !node.states.sensitive && (node.states.focusable || clickable(
                node.role,
            ) || acts)
            &&& node.role != Role::Grouping || node.name@.len() == 0 ==> props.role
                == nearest_role(node.role)
            &&& node.role == Role::Grouping && node.name@.len() > 0 ==> props.role
                == tree::Role::Group
        }),
{
    reveal(properties_of);
}

/// A node is named by its object's name. A label has it as its text instead. The
/// description is given where it says more than the name.
pub proof fn law_a_node_is_named_by_its_object(node: MirrorNode)
    ensures
        ({
            let built = container_of(node);
            let labels = built.props.role == tree::Role::Label;
            &&& node.name@.len() == 0 ==> built.label is None && built.value is None
            &&& node.name@.len() > 0 && labels ==> built.label is None && built.value == Some(
                node.name@,
            )
            &&& node.name@.len() > 0 && !labels ==> built.label == Some(node.name@)
                && built.value is None
            &&& built.description is Some <==> node.description@.len() > 0 && node.description@
                != node.name@
            &&& built.description is Some ==> built.description == Some(node.description@)
            &&& built.placeholder == text_view(node.attributes.placeholder)
            &&& built.children.len() == 0
            &&& built.labelled_by.len() == 0
            &&& built.controls.len() == 0
            &&& built.described_by.len() == 0
            &&& built.details.len() == 0
            &&& built.character_lengths.len() == 0
            &&& built.word_starts.len() == 0
            &&& built.character_positions is None
            &&& built.character_widths is None
            &&& built.props.error_message is None
            &&& built.props.text_selection is None
            &&& built.props.text_direction is None
        }),
{
    reveal(properties_of);
}

/// The bounds of a node are the rectangle of its object: as wide and as high, from its
/// corner. An object that covers nothing has none.
pub proof fn law_bounds_are_the_extent_of_the_object(node: MirrorNode)
    ensures
        match (node.bounds, container_of(node).props.bounds) {
            (Some(extent), Some(bounds)) => {
                &&& extent.width > 0
                &&& extent.height > 0
                &&& bounds.x0 == extent.x
                &&& bounds.y0 == extent.y
                &&& bounds.x1 - bounds.x0 == extent.width
                &&& bounds.y1 - bounds.y0 == extent.height
            },
            (Some(extent), None) => extent.width <= 0 || extent.height <= 0,
            (None, Some(_)) => false,
            (None, None) => true,
        },
{
    reveal(properties_of);
}

/// The number of a node is its object's, if it is finite. Its range and step are given
/// all together, where they are finite and the range is not empty.
pub proof fn law_numbers_are_those_of_the_object(node: MirrorNode)
    ensures
        ({
            let props = container_of(node).props;
            match node.value {
                Some(v) => {
                    let usable = v.current.finite() && v.minimum.finite() && v.maximum.finite()
                        && v.step.finite() && v.minimum.value() < v.maximum.value();
                    &&& v.current.finite() ==> props.numeric_value == Some(v.current)
                    &&& !v.current.finite() ==> props.numeric_value is None
                    &&& usable ==> props.min_numeric_value == Some(v.minimum)
                        && props.max_numeric_value == Some(v.maximum) && props.numeric_value_step
                        == Some(v.step)
                    &&& !usable ==> props.min_numeric_value is None
                        && props.max_numeric_value is None && props.numeric_value_step is None
                },
                None => props.numeric_value is None && props.min_numeric_value is None
                    && props.max_numeric_value is None && props.numeric_value_step is None,
            }
        }),
{
    reveal(properties_of);
}

/// A count or an index of a table is given where it is not negative, and a span where it
/// covers something; each of rows as of rows and of columns as of columns.
pub proof fn law_tables_count_rows_and_columns(node: MirrorNode)
    ensures
        ({
            let props = container_of(node).props;
            let counts = |given: Option<usize>, n: i32, least: int|
                if n >= least {
                    given is Some && given->0 == n
                } else {
                    given is None
                };
            &&& node.table matches Some(t) ==> counts(props.row_count, t.rows, 0) && counts(
                props.column_count,
                t.columns,
                0,
            )
            &&& node.table is None ==> props.row_count is None && props.column_count is None
            &&& node.cell matches Some(c) ==> counts(props.row_index, c.row, 0) && counts(
                props.column_index,
                c.column,
                0,
            ) && counts(props.row_span, c.row_span, 1) && counts(
                props.column_span,
                c.column_span,
                1,
            )
            &&& node.cell is None ==> props.row_index is None && props.column_index is None
                && props.row_span is None && props.column_span is None
        }),
{
    reveal(properties_of);
}

// ---------------------------------------------------------------- what relations say

/// The targets of a relation are those of its paths that have an id, in their order.
pub proof fn law_targets_without_an_id_are_dropped(
    ids: Map<Seq<char>, NodeId>,
    paths: Seq<Seq<char>>,
)
    ensures
        resolved(ids, paths) == paths.filter(|p: Seq<char>| ids.contains_key(p)).map_values(
            |p: Seq<char>| ids[p],
        ),
    decreases paths.len(),
{
    reveal(Seq::filter);
    let known = |p: Seq<char>| ids.contains_key(p);
    let id = |p: Seq<char>| ids[p];
    if paths.len() > 0 {
        let init = paths.drop_last();
        law_targets_without_an_id_are_dropped(ids, init);
        let before = init.filter(known);
        if known(paths.last()) {
            assert(before.push(paths.last()).map_values(id) =~= before.map_values(id).push(
                ids[paths.last()],
            ));
        }
    } else {
        assert(paths.filter(known).map_values(id) =~= Seq::empty());
    }
}

/// What a node says of one kind of relation.
pub open spec fn relation_said(node: NodeView, kind: RelationKind) -> Seq<NodeId> {
    match kind {
        RelationKind::LabelledBy => node.labelled_by,
        RelationKind::Controls => node.controls,
        RelationKind::DescribedBy => node.described_by,
        RelationKind::Details => node.details,
        RelationKind::ErrorMessage => match node.props.error_message {
            Some(id) => seq![id],
            None => Seq::empty(),
        },
        RelationKind::PopupFor => Seq::empty(),
    }
}

/// A node says, of each kind of relation, what the last one of that kind says that still
/// has a target; of an error message it names the first target only. A kind of which none
/// has a target stays as it was, and so does all else about the node.
pub proof fn law_the_last_relation_of_a_kind_is_said(
    node: NodeView,
    relations: Seq<Relation>,
    ids: Map<Seq<char>, NodeId>,
    kind: RelationKind,
    k: int,
)
    requires
        kind != RelationKind::PopupFor,
    ensures
        ({
            let after = with_relations(node, relations, ids);
            let of = |r: Relation| r.kind == kind && resolved(ids, views(r.targets@)).len() > 0;
            &&& (forall|j: int| 0 <= j < relations.len() ==> !of(#[trigger] relations[j]))
                ==> relation_said(after, kind) == relation_said(node, kind)
            &&& 0 <= k < relations.len() && of(relations[k]) && (forall|j: int|
                k < j < relations.len() ==> !of(#[trigger] relations[j])) ==> {
                let targets = resolved(ids, views(relations[k].targets@));
                relation_said(after, kind) == if kind == RelationKind::ErrorMessage {
                    targets.take(1)
                } else {
                    targets
                }
            }
            &&& after == NodeView {
                props: Properties { error_message: after.props.error_message, ..node.props },
                labelled_by: after.labelled_by,
                controls: after.controls,
                described_by: after.described_by,
                details: after.details,
                ..node
            }
        }),
    decreases relations.len(),
{
    if relations.len() > 0 {
        let init = relations.drop_last();
        let n = relations.len() - 1;
        let last = relations[n];
        let of = |r: Relation| r.kind == kind && resolved(ids, views(r.targets@)).len() > 0;
        law_the_last_relation_of_a_kind_is_said(node, init, ids, kind, k);
        let before = with_relations(node, init, ids);
        let after = with_relations(node, relations, ids);
        let targets = resolved(ids, views(last.targets@));
        assert(last == relations.last());
        assert(after == related(before, last.kind, targets));
        assert forall|j: int| 0 <= j < init.len() implies #[trigger] init[j] == relations[j] by {}
        if of(last) {
            if kind == RelationKind::ErrorMessage {
                assert(targets.take(1) =~= seq![targets[0]]);
            }
        } else {
            assert(relation_said(after, kind) == relation_said(before, kind));
            if 0 <= k < n && (forall|j: int|
                k < j < relations.len() ==> !of(#[trigger] relations[j])) {
                assert forall|j: int| k < j < init.len() implies !of(#[trigger] init[j]) by {
                    assert(init[j] == relations[j]);
                }
            }
            if forall|j: int| 0 <= j < relations.len() ==> !of(#[trigger] relations[j]) {
                assert forall|j: int| 0 <= j < init.len() implies !of(#[trigger] init[j]) by {
                    assert(init[j] == relations[j]);
                }
            }
        }
    }
}

/// A popup's owner says nothing of it.
pub proof fn law_a_popup_is_not_said(node: NodeView, targets: Seq<NodeId>)
    ensures
        related(node, RelationKind::PopupFor, targets) == node,
{
}

} // verus!
