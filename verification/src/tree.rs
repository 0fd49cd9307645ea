//! The accessibility tree as the sources build it: nodes, their properties, and
//! the updates that carry them.
//!
//! The types follow the AccessKit schema and hold the part of it that the
//! sources fill in, as plain values, so that every property a node is built
//! with can be stated and compared exactly.

use crate::number::Float64;
use vstd::prelude::*;

verus! {

/// Identifies a node within one window's tree.
#[derive(Debug, Clone, Copy, PartialEq, Eq, PartialOrd, Ord, Hash, Structural)]
pub struct NodeId(pub u64);

/// What kind of thing a node is.
#[derive(Debug, Clone, Copy, PartialEq, Eq, Structural)]
pub enum Role {
    Unknown,
    TextRun,
    Cell,
    Label,
    Image,
    Link,
    Row,
    ListItem,
    TreeItem,
    ListBoxOption,
    MenuItem,
    MenuListOption,
    Paragraph,
    GenericContainer,
    CheckBox,
    RadioButton,
    TextInput,
    Button,
    RowHeader,
    ColumnHeader,
    List,
    Table,
    Grid,
    Switch,
    Menu,
    MultilineTextInput,
    SearchInput,
    DateInput,
    TimeInput,
    PasswordInput,
    Alert,
    Application,
    Article,
    Audio,
    Blockquote,
    Canvas,
    Caption,
    ColorWell,
    ComboBox,
    Comment,
    ContentDeletion,
    ContentInsertion,
    Definition,
    DescriptionList,
    Dialog,
    DisclosureTriangle,
    Document,
    EmbeddedObject,
    Figure,
    Footer,
    Form,
    Group,
    Header,
    Heading,
    ListBox,
    Log,
    Mark,
    Marquee,
    Math,
    MenuBar,
    MenuItemCheckBox,
    MenuItemRadio,
    Meter,
    ProgressIndicator,
    RadioGroup,
    Region,
    RootWebArea,
    ScrollBar,
    ScrollView,
    Section,
    Slider,
    SpinButton,
    Splitter,
    Status,
    Suggestion,
    Tab,
    TabList,
    Term,
    Timer,
    TitleBar,
    Toolbar,
    Tooltip,
    Tree,
    TreeGrid,
    Video,
    Window,
    DocFootnote,
    Terminal,
}

/// The state of something that can be on or off.
#[derive(Debug, Clone, Copy, PartialEq, Eq, Structural)]
pub enum Toggled {
    False,
    True,
    Mixed,
}

#[derive(Debug, Clone, Copy, PartialEq, Eq, Structural)]
pub enum Orientation {
    Horizontal,
    Vertical,
}

#[derive(Debug, Clone, Copy, PartialEq, Eq, Structural)]
pub enum HasPopup {
    Menu,
}

#[derive(Debug, Clone, Copy, PartialEq, Eq, Structural)]
pub enum Invalid {
    True,
}

#[derive(Debug, Clone, Copy, PartialEq, Eq, Structural)]
pub enum TextDirection {
    LeftToRight,
}

/// Something a consumer can ask of a node.
#[derive(Debug, Clone, Copy, PartialEq, Eq, Structural)]
pub enum Action {
    Click,
    Focus,
    Expand,
    Collapse,
    Increment,
    Decrement,
    SetValue,
    SetTextSelection,
    /// Any action that no source carries out.
    Other,
}

/// What an action request carries besides its target.
#[derive(Debug, Clone, PartialEq)]
pub enum ActionData {
    Value(String),
    NumericValue(Float64),
    SetTextSelection(TextSelection),
    /// Any data that no source reads.
    Other,
}

/// A rectangle in the pixels of its window.
#[derive(Debug, Clone, Copy, PartialEq, Eq, Structural)]
pub struct Rect {
    pub x0: i64,
    pub y0: i64,
    pub x1: i64,
    pub y1: i64,
}

/// A place in a node's text: a text run, and a character within it.
#[derive(Debug, Clone, Copy, PartialEq, Eq, Structural)]
pub struct TextPosition {
    pub node: NodeId,
    pub character_index: usize,
}

/// A selection, or a caret where both ends are the same place.
#[derive(Debug, Clone, Copy, PartialEq, Eq, Structural)]
pub struct TextSelection {
    pub anchor: TextPosition,
    pub focus: TextPosition,
}

/// The actions a node declares.
#[derive(Debug, Clone, Copy, PartialEq, Eq, Structural)]
pub struct Actions {
    pub click: bool,
    pub focus: bool,
    pub expand: bool,
    pub collapse: bool,
    pub increment: bool,
    pub decrement: bool,
    pub set_value: bool,
}

/// The properties of a node that are plain values.
///
/// An `Option` is `None` where the concept does not apply to the node, which is
/// not the same as a concept that applies and is off.
#[derive(Debug, Clone, Copy, PartialEq, Eq, Structural)]
pub struct Properties {
    pub role: Role,
    pub actions: Actions,
    pub toggled: Option<Toggled>,
    pub expanded: Option<bool>,
    pub selected: Option<bool>,
    pub has_popup: Option<HasPopup>,
    pub hidden: bool,
    pub disabled: bool,
    pub read_only: bool,
    pub required: bool,
    pub modal: bool,
    pub multiselectable: bool,
    pub busy: bool,
    pub invalid: Option<Invalid>,
    pub orientation: Option<Orientation>,
    pub bounds: Option<Rect>,
    pub numeric_value: Option<Float64>,
    pub min_numeric_value: Option<Float64>,
    pub max_numeric_value: Option<Float64>,
    pub numeric_value_step: Option<Float64>,
    pub row_count: Option<usize>,
    pub column_count: Option<usize>,
    pub row_index: Option<usize>,
    pub column_index: Option<usize>,
    pub row_span: Option<usize>,
    pub column_span: Option<usize>,
    pub level: Option<usize>,
    pub position_in_set: Option<usize>,
    pub size_of_set: Option<usize>,
    pub error_message: Option<NodeId>,
    pub text_selection: Option<TextSelection>,
    pub text_direction: Option<TextDirection>,
}

/// One node of a tree.
#[derive(Debug, PartialEq)]
pub struct Node {
    pub props: Properties,
    pub label: Option<String>,
    pub value: Option<String>,
    pub description: Option<String>,
    pub placeholder: Option<String>,
    pub children: Vec<NodeId>,
    pub labelled_by: Vec<NodeId>,
    pub controls: Vec<NodeId>,
    pub described_by: Vec<NodeId>,
    pub details: Vec<NodeId>,
    /// The UTF-8 length of each character of a text run.
    pub character_lengths: Vec<u8>,
    /// The characters of a text run at which a word begins.
    pub word_starts: Vec<u8>,
    /// Where each character of a text run begins, from the run's left edge.
    pub character_positions: Option<Vec<i64>>,
    /// How wide each character of a text run is.
    pub character_widths: Option<Vec<i64>>,
}

/// The contents of a [`Node`].
#[verifier::ext_equal]
pub struct NodeView {
    pub props: Properties,
    pub label: Option<Seq<char>>,
    pub value: Option<Seq<char>>,
    pub description: Option<Seq<char>>,
    pub placeholder: Option<Seq<char>>,
    pub children: Seq<NodeId>,
    pub labelled_by: Seq<NodeId>,
    pub controls: Seq<NodeId>,
    pub described_by: Seq<NodeId>,
    pub details: Seq<NodeId>,
    pub character_lengths: Seq<u8>,
    pub word_starts: Seq<u8>,
    pub character_positions: Option<Seq<i64>>,
    pub character_widths: Option<Seq<i64>>,
}

/// The characters of an optional string.
pub open spec fn text_view(text: Option<String>) -> Option<Seq<char>> {
    match text {
        Some(s) => Some(s@),
        None => None,
    }
}

/// The contents of an optional list.
pub open spec fn list_view<T>(list: Option<Vec<T>>) -> Option<Seq<T>> {
    match list {
        Some(v) => Some(v@),
        None => None,
    }
}

impl View for Node {
    type V = NodeView;

    open spec fn view(&self) -> NodeView {
        NodeView {
            props: self.props,
            label: text_view(self.label),
            value: text_view(self.value),
            description: text_view(self.description),
            placeholder: text_view(self.placeholder),
            children: self.children@,
            labelled_by: self.labelled_by@,
            controls: self.controls@,
            described_by: self.described_by@,
            details: self.details@,
            character_lengths: self.character_lengths@,
            word_starts: self.word_starts@,
            character_positions: list_view(self.character_positions),
            character_widths: list_view(self.character_widths),
        }
    }
}

/// An optional number with zero written one way.
pub open spec fn normal_number(number: Option<Float64>) -> Option<Float64> {
    match number {
        Some(n) => Some(n.normal()),
        None => None,
    }
}

/// Properties with every zero written one way.
pub open spec fn normal_properties(props: Properties) -> Properties {
    Properties {
        numeric_value: normal_number(props.numeric_value),
        min_numeric_value: normal_number(props.min_numeric_value),
        max_numeric_value: normal_number(props.max_numeric_value),
        numeric_value_step: normal_number(props.numeric_value_step),
        ..props
    }
}

/// Whether two nodes have the same contents, numbers compared by value: negative
/// zero is zero.
pub open spec fn alike(a: NodeView, b: NodeView) -> bool {
    (NodeView { props: normal_properties(a.props), ..a }) == (NodeView {
        props: normal_properties(b.props),
        ..b
    })
}

fn by_value(number: Option<Float64>) -> (normal: Option<Float64>)
    ensures
        normal == normal_number(number),
{
    match number {
        Some(n) => Some(n.to_normal()),
        None => None,
    }
}

impl Properties {
    /// The properties with every zero written one way.
    fn by_value(&self) -> (normal: Properties)
        ensures
            normal == normal_properties(*self),
    {
        let mut normal: Properties = *self;
        normal.numeric_value = by_value(self.numeric_value);
        normal.min_numeric_value = by_value(self.min_numeric_value);
        normal.max_numeric_value = by_value(self.max_numeric_value);
        normal.numeric_value_step = by_value(self.numeric_value_step);
        normal
    }
}

/// The properties of a node of which only the role is known.
pub open spec fn bare_properties(role: Role) -> Properties {
    Properties {
        role,
        actions: Actions {
            click: false,
            focus: false,
            expand: false,
            collapse: false,
            increment: false,
            decrement: false,
            set_value: false,
        },
        toggled: None,
        expanded: None,
        selected: None,
        has_popup: None,
        hidden: false,
        disabled: false,
        read_only: false,
        required: false,
        modal: false,
        multiselectable: false,
        busy: false,
        invalid: None,
        orientation: None,
        bounds: None,
        numeric_value: None,
        min_numeric_value: None,
        max_numeric_value: None,
        numeric_value_step: None,
        row_count: None,
        column_count: None,
        row_index: None,
        column_index: None,
        row_span: None,
        column_span: None,
        level: None,
        position_in_set: None,
        size_of_set: None,
        error_message: None,
        text_selection: None,
        text_direction: None,
    }
}

/// A node of which only the role is known.
pub open spec fn bare_node(role: Role) -> NodeView {
    NodeView {
        props: bare_properties(role),
        label: None,
        value: None,
        description: None,
        placeholder: None,
        children: Seq::empty(),
        labelled_by: Seq::empty(),
        controls: Seq::empty(),
        described_by: Seq::empty(),
        details: Seq::empty(),
        character_lengths: Seq::empty(),
        word_starts: Seq::empty(),
        character_positions: None,
        character_widths: None,
    }
}

impl Properties {
    /// The properties of a node of which only the role is known.
    pub fn new(role: Role) -> (props: Self)
        ensures
            props == bare_properties(role),
    {
        Properties {
            role,
            actions: Actions {
                click: false,
                focus: false,
                expand: false,
                collapse: false,
                increment: false,
                decrement: false,
                set_value: false,
            },
            toggled: None,
            expanded: None,
            selected: None,
            has_popup: None,
            hidden: false,
            disabled: false,
            read_only: false,
            required: false,
            modal: false,
            multiselectable: false,
            busy: false,
            invalid: None,
            orientation: None,
            bounds: None,
            numeric_value: None,
            min_numeric_value: None,
            max_numeric_value: None,
            numeric_value_step: None,
            row_count: None,
            column_count: None,
            row_index: None,
            column_index: None,
            row_span: None,
            column_span: None,
            level: None,
            position_in_set: None,
            size_of_set: None,
            error_message: None,
            text_selection: None,
            text_direction: None,
        }
    }
}

impl Actions {
    /// Whether `action` is one of those declared.
    pub open spec fn declares(self, action: Action) -> bool {
        match action {
            Action::Click => self.click,
            Action::Focus => self.focus,
            Action::Expand => self.expand,
            Action::Collapse => self.collapse,
            Action::Increment => self.increment,
            Action::Decrement => self.decrement,
            Action::SetValue => self.set_value,
            Action::SetTextSelection => false,
            Action::Other => false,
        }
    }
}

impl Node {
    /// A node of which only the role is known.
    pub fn new(role: Role) -> (node: Self)
        ensures
            node@ == bare_node(role),
    {
        Node {
            props: Properties::new(role),
            label: None,
            value: None,
            description: None,
            placeholder: None,
            children: Vec::new(),
            labelled_by: Vec::new(),
            controls: Vec::new(),
            described_by: Vec::new(),
            details: Vec::new(),
            character_lengths: Vec::new(),
            word_starts: Vec::new(),
            character_positions: None,
            character_widths: None,
        }
    }

    /// Whether the node declares `action`.
    pub fn supports_action(&self, action: Action) -> (supported: bool)
        ensures
            supported == self.props.actions.declares(action),
    {
        match action {
            Action::Click => self.props.actions.click,
            Action::Focus => self.props.actions.focus,
            Action::Expand => self.props.actions.expand,
            Action::Collapse => self.props.actions.collapse,
            Action::Increment => self.props.actions.increment,
            Action::Decrement => self.props.actions.decrement,
            Action::SetValue => self.props.actions.set_value,
            Action::SetTextSelection => false,
            Action::Other => false,
        }
    }

    /// Whether two nodes have the same contents, numbers compared by value.
    pub fn same(&self, other: &Node) -> (equal: bool)
        ensures
            equal == alike(self@, other@),
    {
        self.props.by_value() == other.props.by_value() && same_text(&self.label, &other.label) && same_text(
            &self.value,
            &other.value,
        ) && same_text(&self.description, &other.description) && same_text(
            &self.placeholder,
            &other.placeholder,
        ) && same_ids(&self.children, &other.children) && same_ids(
            &self.labelled_by,
            &other.labelled_by,
        ) && same_ids(&self.controls, &other.controls) && same_ids(
            &self.described_by,
            &other.described_by,
        ) && same_ids(&self.details, &other.details) && same_bytes(
            &self.character_lengths,
            &other.character_lengths,
        ) && same_bytes(&self.word_starts, &other.word_starts) && same_measures(
            &self.character_positions,
            &other.character_positions,
        ) && same_measures(&self.character_widths, &other.character_widths)
    }
}

impl Clone for Node {
    fn clone(&self) -> (copy: Self)
        ensures
            copy@ == self@,
    {
        Node {
            props: self.props,
            label: copy_text(&self.label),
            value: copy_text(&self.value),
            description: copy_text(&self.description),
            placeholder: copy_text(&self.placeholder),
            children: copy_ids(&self.children),
            labelled_by: copy_ids(&self.labelled_by),
            controls: copy_ids(&self.controls),
            described_by: copy_ids(&self.described_by),
            details: copy_ids(&self.details),
            character_lengths: copy_bytes(&self.character_lengths),
            word_starts: copy_bytes(&self.word_starts),
            character_positions: copy_measures(&self.character_positions),
            character_widths: copy_measures(&self.character_widths),
        }
    }
}

pub fn copy_text(text: &Option<String>) -> (copy: Option<String>)
    ensures
        text_view(copy) == text_view(*text),
{
    match text {
        Some(s) => Some(s.clone()),
        None => None,
    }
}

pub fn copy_ids(ids: &[NodeId]) -> (copy: Vec<NodeId>)
    ensures
        copy@ == ids@,
{
    let mut copy: Vec<NodeId> = Vec::new();
    for i in 0..ids.len()
        invariant
            copy@ == ids@.take(i as int),
    {
        copy.push(ids[i]);
        assert(copy@ =~= ids@.take(i + 1));
    }
    assert(ids@.take(ids@.len() as int) =~= ids@);
    copy
}

fn copy_bytes(bytes: &[u8]) -> (copy: Vec<u8>)
    ensures
        copy@ == bytes@,
{
    let mut copy: Vec<u8> = Vec::new();
    copy.extend_from_slice(bytes);
    assert(copy@ =~= bytes@);
    copy
}

fn copy_measures(list: &Option<Vec<i64>>) -> (copy: Option<Vec<i64>>)
    ensures
        list_view(copy) == list_view(*list),
{
    match list {
        Some(v) => {
            let mut copy: Vec<i64> = Vec::new();
            copy.extend_from_slice(v.as_slice());
            assert(copy@ =~= v@);
            Some(copy)
        },
        None => None,
    }
}

fn same_text(a: &Option<String>, b: &Option<String>) -> (equal: bool)
    ensures
        equal == (text_view(*a) == text_view(*b)),
{
    match (a, b) {
        (Some(x), Some(y)) => *x == *y,
        (None, None) => true,
        _ => false,
    }
}

fn same_ids(a: &[NodeId], b: &[NodeId]) -> (equal: bool)
    ensures
        equal == (a@ == b@),
{
    if a.len() != b.len() {
        return false;
    }
    for i in 0..a.len()
        invariant
            a@.len() == b@.len(),
            forall|j: int| 0 <= j < i ==> a@[j] == b@[j],
    {
        if a[i] != b[i] {
            return false;
        }
    }
    assert(a@ =~= b@);
    true
}

fn same_bytes(a: &[u8], b: &[u8]) -> (equal: bool)
    ensures
        equal == (a@ == b@),
{
    if a.len() != b.len() {
        return false;
    }
    for i in 0..a.len()
        invariant
            a@.len() == b@.len(),
            forall|j: int| 0 <= j < i ==> a@[j] == b@[j],
    {
        if a[i] != b[i] {
            return false;
        }
    }
    assert(a@ =~= b@);
    true
}

fn same_ints(a: &[i64], b: &[i64]) -> (equal: bool)
    ensures
        equal == (a@ == b@),
{
    if a.len() != b.len() {
        return false;
    }
    for i in 0..a.len()
        invariant
            a@.len() == b@.len(),
            forall|j: int| 0 <= j < i ==> a@[j] == b@[j],
    {
        if a[i] != b[i] {
            return false;
        }
    }
    assert(a@ =~= b@);
    true
}

fn same_measures(a: &Option<Vec<i64>>, b: &Option<Vec<i64>>) -> (equal: bool)
    ensures
        equal == (list_view(*a) == list_view(*b)),
{
    match (a, b) {
        (Some(x), Some(y)) => same_ints(x.as_slice(), y.as_slice()),
        (None, None) => true,
        _ => false,
    }
}

/// Where a window's tree begins.
#[derive(Debug, Clone, Copy, PartialEq, Eq, Structural)]
pub struct Tree {
    pub root: NodeId,
}

/// A change to one window's tree.
///
/// `tree` is present where the update carries the whole tree and absent where
/// it carries only what changed.
#[derive(Debug, PartialEq)]
pub struct TreeUpdate {
    pub nodes: Vec<(NodeId, Node)>,
    pub tree: Option<Tree>,
    pub focus: NodeId,
}

/// The contents of a [`TreeUpdate`].
#[verifier::ext_equal]
pub struct TreeUpdateView {
    pub nodes: Seq<(NodeId, NodeView)>,
    pub tree: Option<Tree>,
    pub focus: NodeId,
}

/// The contents of a list of nodes.
pub open spec fn node_views(nodes: Seq<(NodeId, Node)>) -> Seq<(NodeId, NodeView)> {
    nodes.map_values(|entry: (NodeId, Node)| (entry.0, entry.1@))
}

/// The ids in a list of nodes.
pub open spec fn node_ids(nodes: Seq<(NodeId, NodeView)>) -> Seq<NodeId> {
    nodes.map_values(|entry: (NodeId, NodeView)| entry.0)
}

impl View for TreeUpdate {
    type V = TreeUpdateView;

    open spec fn view(&self) -> TreeUpdateView {
        TreeUpdateView { nodes: node_views(self.nodes@), tree: self.tree, focus: self.focus }
    }
}

pub proof fn lemma_node_views_push(nodes: Seq<(NodeId, Node)>, entry: (NodeId, Node))
    ensures
        node_views(nodes.push(entry)) == node_views(nodes).push((entry.0, entry.1@)),
{
    assert(node_views(nodes.push(entry)) =~= node_views(nodes).push((entry.0, entry.1@)));
}

pub proof fn lemma_node_views_concat(a: Seq<(NodeId, Node)>, b: Seq<(NodeId, Node)>)
    ensures
        node_views(a + b) == node_views(a) + node_views(b),
{
    assert(node_views(a + b) =~= node_views(a) + node_views(b));
}

/// An independent copy of a list of nodes.
pub fn copy_nodes(nodes: &[(NodeId, Node)]) -> (copy: Vec<(NodeId, Node)>)
    ensures
        node_views(copy@) == node_views(nodes@),
{
    let mut copy: Vec<(NodeId, Node)> = Vec::new();
    for i in 0..nodes.len()
        invariant
            copy@.len() == i,
            forall|j: int|
                0 <= j < i ==> (#[trigger] copy@[j]).0 == nodes@[j].0 && copy@[j].1@
                    == nodes@[j].1@,
    {
        copy.push((nodes[i].0, nodes[i].1.clone()));
    }
    assert(node_views(copy@) =~= node_views(nodes@));
    copy
}

/// The ids in a list of nodes.
pub fn ids_of(nodes: &[(NodeId, Node)]) -> (ids: Vec<NodeId>)
    ensures
        ids@ == node_ids(node_views(nodes@)),
{
    let mut ids: Vec<NodeId> = Vec::new();
    for i in 0..nodes.len()
        invariant
            ids@.len() == i,
            forall|j: int| 0 <= j < i ==> ids@[j] == nodes@[j].0,
    {
        ids.push(nodes[i].0);
    }
    assert(ids@ =~= node_ids(node_views(nodes@)));
    ids
}

} // verus!
