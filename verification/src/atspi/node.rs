//! One AT-SPI object as the mapping sees it, and what its role and states mean.

use crate::atspi::vocabulary::Interface;
use crate::atspi::vocabulary::InterfaceSet;
use crate::atspi::vocabulary::RelationType;
use crate::atspi::vocabulary::Role;
use crate::atspi::vocabulary::State;
use crate::atspi::vocabulary::StateSet;
use crate::number::Float64;
use crate::strings::all_digits;
use crate::strings::digit_value;
use crate::strings::is_unsigned_numeral;
use crate::strings::lemma_numeral_value;
use crate::strings::numeral;
use crate::strings::numeral_value;
use crate::strings::parse_unsigned;
use crate::strings::unsigned_digits;
use crate::tree;
use crate::tree::text_view;
use crate::tree::Orientation;
use crate::tree::Toggled;
use vstd::hash_map::StringHashMap;
use vstd::prelude::*;

verus! {

/// One object flattened into the fields the mapping needs. The object path is
/// its identity.
///
/// Each `Option` field corresponds to an interface the object advertises, so
/// `interfaces` also says which extra reads were made: `text` for `Text`,
/// `bounds` for `Component`, `value` for `Value`, `table` for `Table`, `cell` for
/// `TableCell`. `attributes` and `relations` come from an interface every object
/// has, and are read only for roles that can carry them.
#[derive(Debug, Clone)]
pub struct MirrorNode {
    pub path: String,
    pub role: Role,
    pub name: String,
    /// The object's longer description; empty when absent.
    pub description: String,
    pub interfaces: InterfaceSet,
    pub states: NodeStates,
    pub children: Vec<String>,
    pub text: Option<TextState>,
    /// The object's own window-relative extents.
    pub bounds: Option<CharExtent>,
    pub value: Option<ValueState>,
    pub table: Option<TableState>,
    pub cell: Option<CellState>,
    pub attributes: NodeAttributes,
    /// Relations to other objects by path, forward directions only.
    pub relations: Vec<Relation>,
}

/// The `Text` interface of one object. Offsets count Unicode scalar values.
#[derive(Debug, Clone, PartialEq)]
pub struct TextState {
    pub text: String,
    pub caret: Option<usize>,
    pub selection: Option<(usize, usize)>,
    /// The window-relative extent of each character; `None` when geometry was
    /// unavailable or not read.
    pub extents: Option<Vec<CharExtent>>,
}

/// A window-relative extent: a character's, or a whole object's.
#[derive(Debug, Clone, Copy, PartialEq, Eq, Structural)]
pub struct CharExtent {
    pub x: i32,
    pub y: i32,
    pub width: i32,
    pub height: i32,
}

/// The `Value` interface: the current number, the ends of its range, and the
/// increment one step changes it by.
#[derive(Debug, Clone, Copy, PartialEq, Eq, Structural)]
pub struct ValueState {
    pub current: Float64,
    pub minimum: Float64,
    pub maximum: Float64,
    pub step: Float64,
}

/// The `Table` interface's row and column counts.
#[derive(Debug, Clone, Copy, PartialEq, Eq, Structural)]
pub struct TableState {
    pub rows: i32,
    pub columns: i32,
}

/// The `TableCell` interface: zero-based row and column, and how many rows and
/// columns the cell spans.
#[derive(Debug, Clone, Copy, PartialEq, Eq, Structural)]
pub struct CellState {
    pub row: i32,
    pub column: i32,
    pub row_span: i32,
    pub column_span: i32,
}

/// Presentation attributes out of an object's untyped attribute map.
#[derive(Debug, Clone, PartialEq)]
pub struct NodeAttributes {
    pub placeholder: Option<String>,
    pub level: Option<usize>,
    pub position_in_set: Option<usize>,
    pub size_of_set: Option<usize>,
}

/// A relation the mapping consumes.
#[derive(Debug, Clone, Copy, PartialEq, Eq, Structural)]
pub enum RelationKind {
    LabelledBy,
    Controls,
    DescribedBy,
    Details,
    ErrorMessage,
    PopupFor,
}

/// A relation of `kind` to the objects at `targets`.
#[derive(Debug, Clone, PartialEq)]
pub struct Relation {
    pub kind: RelationKind,
    pub targets: Vec<String>,
}

/// The states the mapping forwards. An `Option` is `None` when the concept does
/// not apply to the object, as opposed to an explicit `false`.
#[derive(Debug, Clone, Copy, PartialEq, Eq, Structural)]
pub struct NodeStates {
    pub focusable: bool,
    pub focused: bool,
    pub expanded: Option<bool>,
    pub selected: Option<bool>,
    pub toggled: Option<Toggled>,
    pub has_popup: bool,
    /// Whether the object reports itself operable. Its absence is what marks a
    /// control disabled, so this is stored positively and consulted only where
    /// the object is a control at all.
    pub sensitive: bool,
    pub read_only: bool,
    pub required: bool,
    pub invalid: bool,
    pub modal: bool,
    pub multiselectable: bool,
    pub busy: bool,
    /// `None` when the object reports neither or both orientations.
    pub orientation: Option<Orientation>,
}

/// The states of an object that reports none.
pub open spec fn no_states() -> NodeStates {
    distilled(Set::empty())
}

/// What the mapping forwards of a set of states.
pub open spec fn distilled(states: Set<State>) -> NodeStates {
    NodeStates {
        focusable: states.contains(State::Focusable),
        focused: states.contains(State::Focused),
        expanded: if states.contains(State::Expandable) || states.contains(State::Expanded)
            || states.contains(State::Collapsed) {
            Some(states.contains(State::Expanded))
        } else {
            None
        },
        selected: if states.contains(State::Selectable) || states.contains(State::Selected) {
            Some(states.contains(State::Selected))
        } else {
            None
        },
        toggled: if states.contains(State::Indeterminate) {
            Some(Toggled::Mixed)
        } else if states.contains(State::Checked) || states.contains(State::Pressed) {
            Some(Toggled::True)
        } else if states.contains(State::Checkable) {
            Some(Toggled::False)
        } else {
            None
        },
        has_popup: states.contains(State::HasPopup),
        sensitive: states.contains(State::Sensitive) || states.contains(State::Enabled),
        read_only: states.contains(State::ReadOnly),
        required: states.contains(State::Required),
        invalid: states.contains(State::InvalidEntry),
        modal: states.contains(State::Modal),
        multiselectable: states.contains(State::Multiselectable),
        busy: states.contains(State::Busy),
        orientation: match (
            states.contains(State::Horizontal),
            states.contains(State::Vertical),
        ) {
            (true, false) => Some(Orientation::Horizontal),
            (false, true) => Some(Orientation::Vertical),
            _ => None,
        },
    }
}

/// Distils the states the mapping forwards out of all an object reports.
pub fn node_states(states: &StateSet) -> (distillate: NodeStates)
    ensures
        distillate == distilled(states@),
{
    let expanded: Option<bool> = if states.contains(State::Expandable) || states.contains(
        State::Expanded,
    ) || states.contains(State::Collapsed) {
        Some(states.contains(State::Expanded))
    } else {
        None
    };
    let selected: Option<bool> = if states.contains(State::Selectable) || states.contains(
        State::Selected,
    ) {
        Some(states.contains(State::Selected))
    } else {
        None
    };
    let toggled: Option<Toggled> = if states.contains(State::Indeterminate) {
        Some(Toggled::Mixed)
    } else if states.contains(State::Checked) || states.contains(State::Pressed) {
        Some(Toggled::True)
    } else if states.contains(State::Checkable) {
        Some(Toggled::False)
    } else {
        None
    };
    let orientation: Option<Orientation> = match (
        states.contains(State::Horizontal),
        states.contains(State::Vertical),
    ) {
        (true, false) => Some(Orientation::Horizontal),
        (false, true) => Some(Orientation::Vertical),
        _ => None,
    };
    NodeStates {
        focusable: states.contains(State::Focusable),
        focused: states.contains(State::Focused),
        expanded,
        selected,
        toggled,
        has_popup: states.contains(State::HasPopup),
        sensitive: states.contains(State::Sensitive) || states.contains(State::Enabled),
        read_only: states.contains(State::ReadOnly),
        required: states.contains(State::Required),
        invalid: states.contains(State::InvalidEntry),
        modal: states.contains(State::Modal),
        multiselectable: states.contains(State::Multiselectable),
        busy: states.contains(State::Busy),
        orientation,
    }
}

impl Default for NodeStates {
    fn default() -> (states: Self)
        ensures
            states == no_states(),
    {
        node_states(&StateSet::empty())
    }
}

impl Default for NodeAttributes {
    fn default() -> (attributes: Self)
        ensures
            attributes.placeholder is None,
            attributes.level is None,
            attributes.position_in_set is None,
            attributes.size_of_set is None,
    {
        NodeAttributes { placeholder: None, level: None, position_in_set: None, size_of_set: None }
    }
}

impl Default for MirrorNode {
    fn default() -> (node: Self)
        ensures
            node.path@.len() == 0,
            node.role == Role::Invalid,
            node.name@.len() == 0,
            node.description@.len() == 0,
            node.interfaces@ == Set::<Interface>::empty(),
            node.states == no_states(),
            node.children@.len() == 0,
            node.text is None,
            node.bounds is None,
            node.value is None,
            node.table is None,
            node.cell is None,
            node.attributes.placeholder is None,
            node.attributes.level is None,
            node.attributes.position_in_set is None,
            node.attributes.size_of_set is None,
            node.relations@.len() == 0,
    {
        MirrorNode {
            path: String::new(),
            role: Role::Invalid,
            name: String::new(),
            description: String::new(),
            interfaces: InterfaceSet::empty(),
            states: NodeStates::default(),
            children: Vec::new(),
            text: None,
            bounds: None,
            value: None,
            table: None,
            cell: None,
            attributes: NodeAttributes::default(),
            relations: Vec::new(),
        }
    }
}

impl MirrorNode {
    pub open spec fn actionable(&self) -> bool {
        self.interfaces@.contains(Interface::Action)
    }

    /// Whether the object advertises the `Action` interface.
    pub fn is_actionable(&self) -> (yes: bool)
        ensures
            yes == self.actionable(),
    {
        self.interfaces.contains(Interface::Action)
    }

    /// Whether this is a control the user can operate, as opposed to a layout
    /// container or a piece of static content.
    pub open spec fn control(&self) -> bool {
        self.states.focusable || clickable(self.role) || self.actionable()
    }
}

/// Decides [`MirrorNode::control`].
pub fn is_control(node: &MirrorNode) -> (yes: bool)
    ensures
        yes == node.control(),
{
    node.states.focusable || is_clickable_role(node.role) || node.is_actionable()
}

/// The tree role nearest to an AT-SPI role. A role that carries no semantics a
/// reader can use stays a transparent container.
pub open spec fn nearest_role(role: Role) -> tree::Role {
    match role {
        Role::Frame | Role::Window => tree::Role::Window,
        Role::Dialog => tree::Role::Dialog,
        Role::Alert => tree::Role::Alert,
        Role::Label => tree::Role::Label,
        Role::Button | Role::ToggleButton | Role::PushButtonMenu => tree::Role::Button,
        Role::CheckBox => tree::Role::CheckBox,
        Role::CheckMenuItem => tree::Role::MenuItemCheckBox,
        Role::RadioButton => tree::Role::RadioButton,
        Role::RadioMenuItem => tree::Role::MenuItemRadio,
        Role::Menu | Role::PopupMenu => tree::Role::Menu,
        Role::MenuBar => tree::Role::MenuBar,
        Role::MenuItem => tree::Role::MenuItem,
        Role::Panel | Role::Filler => tree::Role::GenericContainer,
        Role::Text => tree::Role::MultilineTextInput,
        Role::Entry => tree::Role::TextInput,
        Role::PasswordText => tree::Role::PasswordInput,
        Role::Terminal => tree::Role::Terminal,
        Role::DocumentFrame
        | Role::DocumentText
        | Role::DocumentWeb
        | Role::DocumentEmail
        | Role::DocumentSpreadsheet
        | Role::DocumentPresentation => tree::Role::Document,
        Role::List => tree::Role::List,
        Role::ListItem => tree::Role::ListItem,
        Role::ListBox => tree::Role::ListBox,
        Role::ComboBox => tree::Role::ComboBox,
        Role::ScrollBar => tree::Role::ScrollBar,
        Role::ScrollPane => tree::Role::ScrollView,
        Role::Slider => tree::Role::Slider,
        Role::SpinButton => tree::Role::SpinButton,
        Role::ProgressBar => tree::Role::ProgressIndicator,
        Role::ToolBar => tree::Role::Toolbar,
        Role::PageTab => tree::Role::Tab,
        Role::PageTabList => tree::Role::TabList,
        Role::Table => tree::Role::Table,
        Role::TableCell => tree::Role::Cell,
        Role::Tree => tree::Role::Tree,
        Role::TreeItem => tree::Role::TreeItem,
        Role::Heading => tree::Role::Heading,
        Role::Link => tree::Role::Link,
        Role::Image | Role::Icon => tree::Role::Image,
        Role::StatusBar => tree::Role::Status,
        Role::Application => tree::Role::Application,
        Role::Section => tree::Role::Section,
        Role::Paragraph => tree::Role::Paragraph,
        Role::Separator => tree::Role::Splitter,
        Role::LevelBar => tree::Role::Meter,
        Role::Rating => tree::Role::Meter,
        Role::Dial => tree::Role::Slider,
        Role::TableRow => tree::Role::Row,
        Role::RowHeader | Role::TableRowHeader => tree::Role::RowHeader,
        Role::ColumnHeader | Role::TableColumnHeader => tree::Role::ColumnHeader,
        Role::TreeTable => tree::Role::TreeGrid,
        Role::ToolTip => tree::Role::Tooltip,
        Role::Static => tree::Role::Label,
        Role::Notification | Role::InfoBar => tree::Role::Alert,
        Role::TitleBar => tree::Role::TitleBar,
        Role::Header => tree::Role::Header,
        Role::Footer => tree::Role::Footer,
        Role::Canvas | Role::DrawingArea => tree::Role::Canvas,
        Role::Audio => tree::Role::Audio,
        Role::Video => tree::Role::Video,
        Role::Editbar => tree::Role::TextInput,
        Role::Embedded => tree::Role::EmbeddedObject,
        Role::ImageMap => tree::Role::Image,
        Role::CHART => tree::Role::Figure,
        Role::Autocomplete => tree::Role::ListBox,
        Role::TearoffMenuItem => tree::Role::MenuItem,
        Role::FileChooser | Role::FontChooser | Role::ColorChooser => tree::Role::Dialog,
        Role::DateEditor => tree::Role::DateInput,
        Role::Article => tree::Role::Article,
        Role::BlockQuote => tree::Role::Blockquote,
        Role::Caption => tree::Role::Caption,
        Role::Comment => tree::Role::Comment,
        Role::Form => tree::Role::Form,
        Role::Landmark => tree::Role::Region,
        Role::Log => tree::Role::Log,
        Role::Marquee => tree::Role::Marquee,
        Role::Math | Role::MathFraction | Role::MathRoot => tree::Role::Math,
        Role::Footnote => tree::Role::DocFootnote,
        Role::Timer => tree::Role::Timer,
        Role::Definition | Role::DescriptionValue => tree::Role::Definition,
        Role::DescriptionList => tree::Role::DescriptionList,
        Role::DescriptionTerm => tree::Role::Term,
        Role::Mark => tree::Role::Mark,
        Role::Suggestion => tree::Role::Suggestion,
        Role::ContentDeletion => tree::Role::ContentDeletion,
        Role::ContentInsertion => tree::Role::ContentInsertion,
        _ => tree::Role::GenericContainer,
    }
}

/// The tree role nearest to an AT-SPI role.
pub fn map_role(role: Role) -> (mapped: tree::Role)
    ensures
        mapped == nearest_role(role),
{
    match role {
        Role::Frame | Role::Window => tree::Role::Window,
        Role::Dialog => tree::Role::Dialog,
        Role::Alert => tree::Role::Alert,
        Role::Label => tree::Role::Label,
        Role::Button | Role::ToggleButton | Role::PushButtonMenu => tree::Role::Button,
        Role::CheckBox => tree::Role::CheckBox,
        Role::CheckMenuItem => tree::Role::MenuItemCheckBox,
        Role::RadioButton => tree::Role::RadioButton,
        Role::RadioMenuItem => tree::Role::MenuItemRadio,
        Role::Menu | Role::PopupMenu => tree::Role::Menu,
        Role::MenuBar => tree::Role::MenuBar,
        Role::MenuItem => tree::Role::MenuItem,
        Role::Panel | Role::Filler => tree::Role::GenericContainer,
        Role::Text => tree::Role::MultilineTextInput,
        Role::Entry => tree::Role::TextInput,
        Role::PasswordText => tree::Role::PasswordInput,
        Role::Terminal => tree::Role::Terminal,
        Role::DocumentFrame
        | Role::DocumentText
        | Role::DocumentWeb
        | Role::DocumentEmail
        | Role::DocumentSpreadsheet
        | Role::DocumentPresentation => tree::Role::Document,
        Role::List => tree::Role::List,
        Role::ListItem => tree::Role::ListItem,
        Role::ListBox => tree::Role::ListBox,
        Role::ComboBox => tree::Role::ComboBox,
        Role::ScrollBar => tree::Role::ScrollBar,
        Role::ScrollPane => tree::Role::ScrollView,
        Role::Slider => tree::Role::Slider,
        Role::SpinButton => tree::Role::SpinButton,
        Role::ProgressBar => tree::Role::ProgressIndicator,
        Role::ToolBar => tree::Role::Toolbar,
        Role::PageTab => tree::Role::Tab,
        Role::PageTabList => tree::Role::TabList,
        Role::Table => tree::Role::Table,
        Role::TableCell => tree::Role::Cell,
        Role::Tree => tree::Role::Tree,
        Role::TreeItem => tree::Role::TreeItem,
        Role::Heading => tree::Role::Heading,
        Role::Link => tree::Role::Link,
        Role::Image | Role::Icon => tree::Role::Image,
        Role::StatusBar => tree::Role::Status,
        Role::Application => tree::Role::Application,
        Role::Section => tree::Role::Section,
        Role::Paragraph => tree::Role::Paragraph,
        Role::Separator => tree::Role::Splitter,
        Role::LevelBar => tree::Role::Meter,
        Role::Rating => tree::Role::Meter,
        Role::Dial => tree::Role::Slider,
        Role::TableRow => tree::Role::Row,
        Role::RowHeader | Role::TableRowHeader => tree::Role::RowHeader,
        Role::ColumnHeader | Role::TableColumnHeader => tree::Role::ColumnHeader,
        Role::TreeTable => tree::Role::TreeGrid,
        Role::ToolTip => tree::Role::Tooltip,
        Role::Static => tree::Role::Label,
        Role::Notification | Role::InfoBar => tree::Role::Alert,
        Role::TitleBar => tree::Role::TitleBar,
        Role::Header => tree::Role::Header,
        Role::Footer => tree::Role::Footer,
        Role::Canvas | Role::DrawingArea => tree::Role::Canvas,
        Role::Audio => tree::Role::Audio,
        Role::Video => tree::Role::Video,
        Role::Editbar => tree::Role::TextInput,
        Role::Embedded => tree::Role::EmbeddedObject,
        Role::ImageMap => tree::Role::Image,
        Role::CHART => tree::Role::Figure,
        Role::Autocomplete => tree::Role::ListBox,
        Role::TearoffMenuItem => tree::Role::MenuItem,
        Role::FileChooser | Role::FontChooser | Role::ColorChooser => tree::Role::Dialog,
        Role::DateEditor => tree::Role::DateInput,
        Role::Article => tree::Role::Article,
        Role::BlockQuote => tree::Role::Blockquote,
        Role::Caption => tree::Role::Caption,
        Role::Comment => tree::Role::Comment,
        Role::Form => tree::Role::Form,
        Role::Landmark => tree::Role::Region,
        Role::Log => tree::Role::Log,
        Role::Marquee => tree::Role::Marquee,
        Role::Math | Role::MathFraction | Role::MathRoot => tree::Role::Math,
        Role::Footnote => tree::Role::DocFootnote,
        Role::Timer => tree::Role::Timer,
        Role::Definition | Role::DescriptionValue => tree::Role::Definition,
        Role::DescriptionList => tree::Role::DescriptionList,
        Role::DescriptionTerm => tree::Role::Term,
        Role::Mark => tree::Role::Mark,
        Role::Suggestion => tree::Role::Suggestion,
        Role::ContentDeletion => tree::Role::ContentDeletion,
        Role::ContentInsertion => tree::Role::ContentInsertion,
        _ => tree::Role::GenericContainer,
    }
}

/// The role a node is given: the nearest to its own, except that a named
/// grouping is a deliberate one and becomes a group. A panel is what a toolkit
/// emits for a plain layout box and is left alone whether named or not.
pub open spec fn refined(base: tree::Role, node: MirrorNode) -> tree::Role {
    if node.role == Role::Grouping && node.name@.len() > 0 {
        tree::Role::Group
    } else {
        base
    }
}

/// Sharpens a mapped role using the rest of the node, for the cases the role
/// alone cannot distinguish.
pub fn refine_role(base: tree::Role, node: &MirrorNode) -> (role: tree::Role)
    ensures
        role == refined(base, *node),
{
    if node.role == Role::Grouping && !node.name.as_str().is_empty() {
        tree::Role::Group
    } else {
        base
    }
}

/// Whether a role is one whose default action a consumer should expose as a
/// click. Toolkits advertise the `Action` interface on many containers, so the
/// interface alone is too broad.
pub open spec fn clickable(role: Role) -> bool {
    match role {
        Role::Button
        | Role::ToggleButton
        | Role::CheckBox
        | Role::CheckMenuItem
        | Role::RadioButton
        | Role::RadioMenuItem
        | Role::MenuItem
        | Role::Menu
        | Role::PageTab
        | Role::Link
        | Role::ListItem
        | Role::TreeItem => true,
        _ => false,
    }
}

/// Decides [`clickable`].
pub fn is_clickable_role(role: Role) -> (yes: bool)
    ensures
        yes == clickable(role),
{
    match role {
        Role::Button
        | Role::ToggleButton
        | Role::CheckBox
        | Role::CheckMenuItem
        | Role::RadioButton
        | Role::RadioMenuItem
        | Role::MenuItem
        | Role::Menu
        | Role::PageTab
        | Role::Link
        | Role::ListItem
        | Role::TreeItem => true,
        _ => false,
    }
}

/// Whether a role conventionally carries a numeric value. Some toolkits
/// advertise the `Value` interface on menu items and table cells too, where a
/// numeric range is meaningless.
pub open spec fn carries_value(role: Role) -> bool {
    match role {
        Role::Slider
        | Role::SpinButton
        | Role::ProgressBar
        | Role::LevelBar
        | Role::ScrollBar
        | Role::Dial => true,
        _ => false,
    }
}

/// Decides [`carries_value`].
pub fn role_reads_value(role: Role) -> (yes: bool)
    ensures
        yes == carries_value(role),
{
    match role {
        Role::Slider
        | Role::SpinButton
        | Role::ProgressBar
        | Role::LevelBar
        | Role::ScrollBar
        | Role::Dial => true,
        _ => false,
    }
}

/// Whether a role is one whose object attributes are worth reading: roles that
/// can carry a placeholder, a level, or a position within a set.
pub open spec fn carries_attributes(role: Role) -> bool {
    match role {
        Role::Text
        | Role::PasswordText
        | Role::Entry
        | Role::Editbar
        | Role::Terminal
        | Role::Heading
        | Role::ListItem
        | Role::TreeItem
        | Role::RadioButton
        | Role::PageTab
        | Role::TableCell => true,
        _ => false,
    }
}

/// Decides [`carries_attributes`].
pub fn role_reads_attributes(role: Role) -> (yes: bool)
    ensures
        yes == carries_attributes(role),
{
    match role {
        Role::Text
        | Role::PasswordText
        | Role::Entry
        | Role::Editbar
        | Role::Terminal
        | Role::Heading
        | Role::ListItem
        | Role::TreeItem
        | Role::RadioButton
        | Role::PageTab
        | Role::TableCell => true,
        _ => false,
    }
}

/// Whether a role is one whose relations are worth reading: controls and the
/// containers they conventionally point at or are pointed at from.
pub open spec fn carries_relations(role: Role) -> bool {
    match role {
        Role::Panel
        | Role::Grouping
        | Role::ScrollPane
        | Role::PageTab
        | Role::Button
        | Role::ToggleButton
        | Role::CheckBox
        | Role::RadioButton
        | Role::ComboBox
        | Role::SpinButton
        | Role::Slider
        | Role::ScrollBar
        | Role::Text
        | Role::Entry
        | Role::PasswordText
        | Role::Editbar => true,
        _ => false,
    }
}

/// Decides [`carries_relations`].
pub fn role_reads_relations(role: Role) -> (yes: bool)
    ensures
        yes == carries_relations(role),
{
    match role {
        Role::Panel
        | Role::Grouping
        | Role::ScrollPane
        | Role::PageTab
        | Role::Button
        | Role::ToggleButton
        | Role::CheckBox
        | Role::RadioButton
        | Role::ComboBox
        | Role::SpinButton
        | Role::Slider
        | Role::ScrollBar
        | Role::Text
        | Role::Entry
        | Role::PasswordText
        | Role::Editbar => true,
        _ => false,
    }
}

/// Whether a role is one whose whole purpose is to carry a checked or pressed
/// state, so a consumer should always find one on it.
pub open spec fn toggleable(role: Role) -> bool {
    match role {
        Role::CheckBox
        | Role::CheckMenuItem
        | Role::RadioButton
        | Role::RadioMenuItem
        | Role::ToggleButton => true,
        _ => false,
    }
}

/// Decides [`toggleable`].
pub fn is_toggleable_role(role: Role) -> (yes: bool)
    ensures
        yes == toggleable(role),
{
    match role {
        Role::CheckBox
        | Role::CheckMenuItem
        | Role::RadioButton
        | Role::RadioMenuItem
        | Role::ToggleButton => true,
        _ => false,
    }
}

/// Whether a role is an editable text field.
pub open spec fn editable_text(role: Role) -> bool {
    match role {
        Role::Text
        | Role::Entry
        | Role::PasswordText => true,
        _ => false,
    }
}

/// Decides [`editable_text`].
pub fn is_editable_text_role(role: Role) -> (yes: bool)
    ensures
        yes == editable_text(role),
{
    match role {
        Role::Text
        | Role::Entry
        | Role::PasswordText => true,
        _ => false,
    }
}

/// Whether a role is static text: a label, terminal, document, or paragraph.
pub open spec fn static_text(role: Role) -> bool {
    match role {
        Role::Label
        | Role::Terminal
        | Role::Paragraph
        | Role::DocumentFrame
        | Role::DocumentText
        | Role::DocumentWeb
        | Role::DocumentEmail
        | Role::DocumentSpreadsheet
        | Role::DocumentPresentation => true,
        _ => false,
    }
}

/// Decides [`static_text`].
pub fn is_static_text_role(role: Role) -> (yes: bool)
    ensures
        yes == static_text(role),
{
    match role {
        Role::Label
        | Role::Terminal
        | Role::Paragraph
        | Role::DocumentFrame
        | Role::DocumentText
        | Role::DocumentWeb
        | Role::DocumentEmail
        | Role::DocumentSpreadsheet
        | Role::DocumentPresentation => true,
        _ => false,
    }
}

/// Whether an object of this role and child structure has its text mirrored
/// into text runs: editable text always, static text only as a leaf.
pub open spec fn text_runs_read(role: Role, has_element_children: bool) -> bool {
    editable_text(role) || (static_text(role) && !has_element_children)
}

/// Decides [`text_runs_read`].
pub fn reads_text_runs(role: Role, has_element_children: bool) -> (yes: bool)
    ensures
        yes == text_runs_read(role, has_element_children),
{
    is_editable_text_role(role) || (is_static_text_role(role) && !has_element_children)
}

/// Whether a text role has a caret the user can move.
pub open spec fn has_caret(role: Role) -> bool {
    editable_text(role) || role == Role::Terminal
}

/// Decides [`has_caret`].
pub fn has_text_caret(role: Role) -> (yes: bool)
    ensures
        yes == has_caret(role),
{
    is_editable_text_role(role) || role == Role::Terminal
}

/// The relation the mapping consumes, for the forward direction of each pair it
/// cares about.
pub open spec fn consumed_relation(kind: RelationType) -> Option<RelationKind> {
    match kind {
        RelationType::LabelledBy => Some(RelationKind::LabelledBy),
        RelationType::ControllerFor => Some(RelationKind::Controls),
        RelationType::DescribedBy => Some(RelationKind::DescribedBy),
        RelationType::Details => Some(RelationKind::Details),
        RelationType::ErrorMessage => Some(RelationKind::ErrorMessage),
        RelationType::PopupFor => Some(RelationKind::PopupFor),
        _ => None,
    }
}

/// Decides [`consumed_relation`]: the reverse of each pair, and every relation
/// the mapping has no use for, is dropped.
pub fn map_relation(kind: RelationType) -> (mapped: Option<RelationKind>)
    ensures
        mapped == consumed_relation(kind),
{
    match kind {
        RelationType::LabelledBy => Some(RelationKind::LabelledBy),
        RelationType::ControllerFor => Some(RelationKind::Controls),
        RelationType::DescribedBy => Some(RelationKind::DescribedBy),
        RelationType::Details => Some(RelationKind::Details),
        RelationType::ErrorMessage => Some(RelationKind::ErrorMessage),
        RelationType::PopupFor => Some(RelationKind::PopupFor),
        _ => None,
    }
}

/// The number an attribute holds, if it is there and is one that fits.
pub open spec fn count_attribute(map: Map<Seq<char>, String>, key: Seq<char>) -> Option<usize> {
    if map.contains_key(key) && is_unsigned_numeral(map[key]@) && numeral_value(
        unsigned_digits(map[key]@),
    ) <= usize::MAX {
        Some(numeral_value(unsigned_digits(map[key]@)) as usize)
    } else {
        None
    }
}

/// The placeholder text, if there is some.
pub open spec fn placeholder_attribute(map: Map<Seq<char>, String>) -> Option<Seq<char>> {
    if map.contains_key("placeholder-text"@) && map["placeholder-text"@]@.len() > 0 {
        Some(map["placeholder-text"@]@)
    } else {
        None
    }
}

fn read_count(map: &StringHashMap<String>, key: &str) -> (count: Option<usize>)
    ensures
        count == count_attribute(map@, key@),
{
    match map.get(key) {
        Some(value) => parse_unsigned(value.as_str()),
        None => None,
    }
}

/// Parses the object attributes the mapping forwards. A value that is empty or
/// no number is dropped rather than surfaced malformed; keys the mapping does
/// not recognise are ignored.
pub fn parse_attributes(map: &StringHashMap<String>) -> (attributes: NodeAttributes)
    ensures
        text_view(attributes.placeholder) == placeholder_attribute(map@),
        attributes.level == count_attribute(map@, "level"@),
        attributes.position_in_set == count_attribute(map@, "posinset"@),
        attributes.size_of_set == count_attribute(map@, "setsize"@),
{
    let placeholder: Option<String> = match map.get("placeholder-text") {
        Some(value) => if value.as_str().is_empty() {
            None
        } else {
            Some(value.clone())
        },
        None => None,
    };
    NodeAttributes {
        placeholder,
        level: read_count(map, "level"),
        position_in_set: read_count(map, "posinset"),
        size_of_set: read_count(map, "setsize"),
    }
}

/// From which roles of the bus each role comes. What carries no semantics that a reader can
/// use is a transparent container, and nothing else is.
pub proof fn law_each_role_comes_from_its_own(role: Role)
    ensures
        nearest_role(role) == tree::Role::Window ==> role == Role::Frame || role == Role::Window,
        nearest_role(role) == tree::Role::Dialog ==> role == Role::Dialog
            || role == Role::FileChooser || role == Role::FontChooser
            || role == Role::ColorChooser,
        nearest_role(role) == tree::Role::Alert ==> role == Role::Alert
            || role == Role::Notification || role == Role::InfoBar,
        nearest_role(role) == tree::Role::Label ==> role == Role::Label || role == Role::Static,
        nearest_role(role) == tree::Role::Button ==> role == Role::Button
            || role == Role::ToggleButton || role == Role::PushButtonMenu,
        nearest_role(role) == tree::Role::CheckBox ==> role == Role::CheckBox,
        nearest_role(role) == tree::Role::MenuItemCheckBox ==> role == Role::CheckMenuItem,
        nearest_role(role) == tree::Role::RadioButton ==> role == Role::RadioButton,
        nearest_role(role) == tree::Role::MenuItemRadio ==> role == Role::RadioMenuItem,
        nearest_role(role) == tree::Role::Menu ==> role == Role::Menu || role == Role::PopupMenu,
        nearest_role(role) == tree::Role::MenuBar ==> role == Role::MenuBar,
        nearest_role(role) == tree::Role::MenuItem ==> role == Role::MenuItem
            || role == Role::TearoffMenuItem,
        nearest_role(role) == tree::Role::MultilineTextInput ==> role == Role::Text,
        nearest_role(role) == tree::Role::TextInput ==> role == Role::Entry
            || role == Role::Editbar,
        nearest_role(role) == tree::Role::PasswordInput ==> role == Role::PasswordText,
        nearest_role(role) == tree::Role::Terminal ==> role == Role::Terminal,
        nearest_role(role) == tree::Role::Document ==> role == Role::DocumentFrame
            || role == Role::DocumentText || role == Role::DocumentWeb
            || role == Role::DocumentEmail || role == Role::DocumentSpreadsheet
            || role == Role::DocumentPresentation,
        nearest_role(role) == tree::Role::List ==> role == Role::List,
        nearest_role(role) == tree::Role::ListItem ==> role == Role::ListItem,
        nearest_role(role) == tree::Role::ListBox ==> role == Role::ListBox
            || role == Role::Autocomplete,
        nearest_role(role) == tree::Role::ComboBox ==> role == Role::ComboBox,
        nearest_role(role) == tree::Role::ScrollBar ==> role == Role::ScrollBar,
        nearest_role(role) == tree::Role::ScrollView ==> role == Role::ScrollPane,
        nearest_role(role) == tree::Role::Slider ==> role == Role::Slider || role == Role::Dial,
        nearest_role(role) == tree::Role::SpinButton ==> role == Role::SpinButton,
        nearest_role(role) == tree::Role::ProgressIndicator ==> role == Role::ProgressBar,
        nearest_role(role) == tree::Role::Toolbar ==> role == Role::ToolBar,
        nearest_role(role) == tree::Role::Tab ==> role == Role::PageTab,
        nearest_role(role) == tree::Role::TabList ==> role == Role::PageTabList,
        nearest_role(role) == tree::Role::Table ==> role == Role::Table,
        nearest_role(role) == tree::Role::Cell ==> role == Role::TableCell,
        nearest_role(role) == tree::Role::Tree ==> role == Role::Tree,
        nearest_role(role) == tree::Role::TreeItem ==> role == Role::TreeItem,
        nearest_role(role) == tree::Role::Heading ==> role == Role::Heading,
        nearest_role(role) == tree::Role::Link ==> role == Role::Link,
        nearest_role(role) == tree::Role::Image ==> role == Role::Image || role == Role::Icon
            || role == Role::ImageMap,
        nearest_role(role) == tree::Role::Status ==> role == Role::StatusBar,
        nearest_role(role) == tree::Role::Application ==> role == Role::Application,
        nearest_role(role) == tree::Role::Section ==> role == Role::Section,
        nearest_role(role) == tree::Role::Paragraph ==> role == Role::Paragraph,
        nearest_role(role) == tree::Role::Splitter ==> role == Role::Separator,
        nearest_role(role) == tree::Role::Meter ==> role == Role::LevelBar || role == Role::Rating,
        nearest_role(role) == tree::Role::Row ==> role == Role::TableRow,
        nearest_role(role) == tree::Role::RowHeader ==> role == Role::RowHeader
            || role == Role::TableRowHeader,
        nearest_role(role) == tree::Role::ColumnHeader ==> role == Role::ColumnHeader
            || role == Role::TableColumnHeader,
        nearest_role(role) == tree::Role::TreeGrid ==> role == Role::TreeTable,
        nearest_role(role) == tree::Role::Tooltip ==> role == Role::ToolTip,
        nearest_role(role) == tree::Role::TitleBar ==> role == Role::TitleBar,
        nearest_role(role) == tree::Role::Header ==> role == Role::Header,
        nearest_role(role) == tree::Role::Footer ==> role == Role::Footer,
        nearest_role(role) == tree::Role::Canvas ==> role == Role::Canvas
            || role == Role::DrawingArea,
        nearest_role(role) == tree::Role::Audio ==> role == Role::Audio,
        nearest_role(role) == tree::Role::Video ==> role == Role::Video,
        nearest_role(role) == tree::Role::EmbeddedObject ==> role == Role::Embedded,
        nearest_role(role) == tree::Role::Figure ==> role == Role::CHART,
        nearest_role(role) == tree::Role::DateInput ==> role == Role::DateEditor,
        nearest_role(role) == tree::Role::Article ==> role == Role::Article,
        nearest_role(role) == tree::Role::Blockquote ==> role == Role::BlockQuote,
        nearest_role(role) == tree::Role::Caption ==> role == Role::Caption,
        nearest_role(role) == tree::Role::Comment ==> role == Role::Comment,
        nearest_role(role) == tree::Role::Form ==> role == Role::Form,
        nearest_role(role) == tree::Role::Region ==> role == Role::Landmark,
        nearest_role(role) == tree::Role::Log ==> role == Role::Log,
        nearest_role(role) == tree::Role::Marquee ==> role == Role::Marquee,
        nearest_role(role) == tree::Role::Math ==> role == Role::Math
            || role == Role::MathFraction || role == Role::MathRoot,
        nearest_role(role) == tree::Role::DocFootnote ==> role == Role::Footnote,
        nearest_role(role) == tree::Role::Timer ==> role == Role::Timer,
        nearest_role(role) == tree::Role::Definition ==> role == Role::Definition
            || role == Role::DescriptionValue,
        nearest_role(role) == tree::Role::DescriptionList ==> role == Role::DescriptionList,
        nearest_role(role) == tree::Role::Term ==> role == Role::DescriptionTerm,
        nearest_role(role) == tree::Role::Mark ==> role == Role::Mark,
        nearest_role(role) == tree::Role::Suggestion ==> role == Role::Suggestion,
        nearest_role(role) == tree::Role::ContentDeletion ==> role == Role::ContentDeletion,
        nearest_role(role) == tree::Role::ContentInsertion ==> role == Role::ContentInsertion,
        nearest_role(role) == tree::Role::GenericContainer ==> role != Role::Frame
            && role != Role::Window && role != Role::Dialog && role != Role::Alert
            && role != Role::Label && role != Role::Button && role != Role::ToggleButton
            && role != Role::PushButtonMenu && role != Role::CheckBox
            && role != Role::CheckMenuItem && role != Role::RadioButton
            && role != Role::RadioMenuItem && role != Role::Menu && role != Role::PopupMenu
            && role != Role::MenuBar && role != Role::MenuItem && role != Role::Text
            && role != Role::Entry && role != Role::PasswordText && role != Role::Terminal
            && role != Role::DocumentFrame && role != Role::DocumentText
            && role != Role::DocumentWeb && role != Role::DocumentEmail
            && role != Role::DocumentSpreadsheet && role != Role::DocumentPresentation
            && role != Role::List && role != Role::ListItem && role != Role::ListBox
            && role != Role::ComboBox && role != Role::ScrollBar && role != Role::ScrollPane
            && role != Role::Slider && role != Role::SpinButton && role != Role::ProgressBar
            && role != Role::ToolBar && role != Role::PageTab && role != Role::PageTabList
            && role != Role::Table && role != Role::TableCell && role != Role::Tree
            && role != Role::TreeItem && role != Role::Heading && role != Role::Link
            && role != Role::Image && role != Role::Icon && role != Role::StatusBar
            && role != Role::Application && role != Role::Section && role != Role::Paragraph
            && role != Role::Separator && role != Role::LevelBar && role != Role::Rating
            && role != Role::Dial && role != Role::TableRow && role != Role::RowHeader
            && role != Role::TableRowHeader && role != Role::ColumnHeader
            && role != Role::TableColumnHeader && role != Role::TreeTable && role != Role::ToolTip
            && role != Role::Static && role != Role::Notification && role != Role::InfoBar
            && role != Role::TitleBar && role != Role::Header && role != Role::Footer
            && role != Role::Canvas && role != Role::DrawingArea && role != Role::Audio
            && role != Role::Video && role != Role::Editbar && role != Role::Embedded
            && role != Role::ImageMap && role != Role::CHART && role != Role::Autocomplete
            && role != Role::TearoffMenuItem && role != Role::FileChooser
            && role != Role::FontChooser && role != Role::ColorChooser && role != Role::DateEditor
            && role != Role::Article && role != Role::BlockQuote && role != Role::Caption
            && role != Role::Comment && role != Role::Form && role != Role::Landmark
            && role != Role::Log && role != Role::Marquee && role != Role::Math
            && role != Role::MathFraction && role != Role::MathRoot && role != Role::Footnote
            && role != Role::Timer && role != Role::Definition && role != Role::DescriptionValue
            && role != Role::DescriptionList && role != Role::DescriptionTerm
            && role != Role::Mark && role != Role::Suggestion && role != Role::ContentDeletion
            && role != Role::ContentInsertion,
        nearest_role(Role::Panel) == tree::Role::GenericContainer,
        nearest_role(Role::Filler) == tree::Role::GenericContainer,
        nearest_role(Role::Invalid) == tree::Role::GenericContainer,
        nearest_role(role) == tree::Role::Window
            || nearest_role(role) == tree::Role::Dialog
            || nearest_role(role) == tree::Role::Alert
            || nearest_role(role) == tree::Role::Label
            || nearest_role(role) == tree::Role::Button
            || nearest_role(role) == tree::Role::CheckBox
            || nearest_role(role) == tree::Role::MenuItemCheckBox
            || nearest_role(role) == tree::Role::RadioButton
            || nearest_role(role) == tree::Role::MenuItemRadio
            || nearest_role(role) == tree::Role::Menu
            || nearest_role(role) == tree::Role::MenuBar
            || nearest_role(role) == tree::Role::MenuItem
            || nearest_role(role) == tree::Role::MultilineTextInput
            || nearest_role(role) == tree::Role::TextInput
            || nearest_role(role) == tree::Role::PasswordInput
            || nearest_role(role) == tree::Role::Terminal
            || nearest_role(role) == tree::Role::Document
            || nearest_role(role) == tree::Role::List
            || nearest_role(role) == tree::Role::ListItem
            || nearest_role(role) == tree::Role::ListBox
            || nearest_role(role) == tree::Role::ComboBox
            || nearest_role(role) == tree::Role::ScrollBar
            || nearest_role(role) == tree::Role::ScrollView
            || nearest_role(role) == tree::Role::Slider
            || nearest_role(role) == tree::Role::SpinButton
            || nearest_role(role) == tree::Role::ProgressIndicator
            || nearest_role(role) == tree::Role::Toolbar
            || nearest_role(role) == tree::Role::Tab
            || nearest_role(role) == tree::Role::TabList
            || nearest_role(role) == tree::Role::Table
            || nearest_role(role) == tree::Role::Cell
            || nearest_role(role) == tree::Role::Tree
            || nearest_role(role) == tree::Role::TreeItem
            || nearest_role(role) == tree::Role::Heading
            || nearest_role(role) == tree::Role::Link
            || nearest_role(role) == tree::Role::Image
            || nearest_role(role) == tree::Role::Status
            || nearest_role(role) == tree::Role::Application
            || nearest_role(role) == tree::Role::Section
            || nearest_role(role) == tree::Role::Paragraph
            || nearest_role(role) == tree::Role::Splitter
            || nearest_role(role) == tree::Role::Meter
            || nearest_role(role) == tree::Role::Row
            || nearest_role(role) == tree::Role::RowHeader
            || nearest_role(role) == tree::Role::ColumnHeader
            || nearest_role(role) == tree::Role::TreeGrid
            || nearest_role(role) == tree::Role::Tooltip
            || nearest_role(role) == tree::Role::TitleBar
            || nearest_role(role) == tree::Role::Header
            || nearest_role(role) == tree::Role::Footer
            || nearest_role(role) == tree::Role::Canvas
            || nearest_role(role) == tree::Role::Audio
            || nearest_role(role) == tree::Role::Video
            || nearest_role(role) == tree::Role::EmbeddedObject
            || nearest_role(role) == tree::Role::Figure
            || nearest_role(role) == tree::Role::DateInput
            || nearest_role(role) == tree::Role::Article
            || nearest_role(role) == tree::Role::Blockquote
            || nearest_role(role) == tree::Role::Caption
            || nearest_role(role) == tree::Role::Comment
            || nearest_role(role) == tree::Role::Form
            || nearest_role(role) == tree::Role::Region
            || nearest_role(role) == tree::Role::Log
            || nearest_role(role) == tree::Role::Marquee
            || nearest_role(role) == tree::Role::Math
            || nearest_role(role) == tree::Role::DocFootnote
            || nearest_role(role) == tree::Role::Timer
            || nearest_role(role) == tree::Role::Definition
            || nearest_role(role) == tree::Role::DescriptionList
            || nearest_role(role) == tree::Role::Term
            || nearest_role(role) == tree::Role::Mark
            || nearest_role(role) == tree::Role::Suggestion
            || nearest_role(role) == tree::Role::ContentDeletion
            || nearest_role(role) == tree::Role::ContentInsertion
            || nearest_role(role) == tree::Role::GenericContainer,
{
}

/// Which roles are clicked: each of these, and no other.
pub proof fn law_what_is_clicked(role: Role)
    ensures
        clickable(role) <==> seq![
            Role::Button,
            Role::CheckBox,
            Role::CheckMenuItem,
            Role::Link,
            Role::ListItem,
            Role::Menu,
            Role::MenuItem,
            Role::PageTab,
            Role::RadioButton,
            Role::RadioMenuItem,
            Role::ToggleButton,
            Role::TreeItem,
        ].contains(role),
{
    let all = seq![
        Role::Button,
        Role::CheckBox,
        Role::CheckMenuItem,
        Role::Link,
        Role::ListItem,
        Role::Menu,
        Role::MenuItem,
        Role::PageTab,
        Role::RadioButton,
        Role::RadioMenuItem,
        Role::ToggleButton,
        Role::TreeItem,
    ];
    assert(all[0] == Role::Button);
    assert(all[1] == Role::CheckBox);
    assert(all[2] == Role::CheckMenuItem);
    assert(all[3] == Role::Link);
    assert(all[4] == Role::ListItem);
    assert(all[5] == Role::Menu);
    assert(all[6] == Role::MenuItem);
    assert(all[7] == Role::PageTab);
    assert(all[8] == Role::RadioButton);
    assert(all[9] == Role::RadioMenuItem);
    assert(all[10] == Role::ToggleButton);
    assert(all[11] == Role::TreeItem);
}

/// Which roles carry a number.
pub proof fn law_what_has_a_number(role: Role)
    ensures
        carries_value(role) <==> seq![
            Role::Dial,
            Role::LevelBar,
            Role::ProgressBar,
            Role::ScrollBar,
            Role::Slider,
            Role::SpinButton,
        ].contains(role),
{
    let all = seq![
        Role::Dial,
        Role::LevelBar,
        Role::ProgressBar,
        Role::ScrollBar,
        Role::Slider,
        Role::SpinButton,
    ];
    assert(all[0] == Role::Dial);
    assert(all[1] == Role::LevelBar);
    assert(all[2] == Role::ProgressBar);
    assert(all[3] == Role::ScrollBar);
    assert(all[4] == Role::Slider);
    assert(all[5] == Role::SpinButton);
}

/// Which roles can carry a placeholder, a level or a position in a set.
pub proof fn law_what_has_attributes(role: Role)
    ensures
        carries_attributes(role) <==> seq![
            Role::Editbar,
            Role::Entry,
            Role::Heading,
            Role::ListItem,
            Role::PageTab,
            Role::PasswordText,
            Role::RadioButton,
            Role::TableCell,
            Role::Terminal,
            Role::Text,
            Role::TreeItem,
        ].contains(role),
{
    let all = seq![
        Role::Editbar,
        Role::Entry,
        Role::Heading,
        Role::ListItem,
        Role::PageTab,
        Role::PasswordText,
        Role::RadioButton,
        Role::TableCell,
        Role::Terminal,
        Role::Text,
        Role::TreeItem,
    ];
    assert(all[0] == Role::Editbar);
    assert(all[1] == Role::Entry);
    assert(all[2] == Role::Heading);
    assert(all[3] == Role::ListItem);
    assert(all[4] == Role::PageTab);
    assert(all[5] == Role::PasswordText);
    assert(all[6] == Role::RadioButton);
    assert(all[7] == Role::TableCell);
    assert(all[8] == Role::Terminal);
    assert(all[9] == Role::Text);
    assert(all[10] == Role::TreeItem);
}

/// Which roles point at others or are pointed at.
pub proof fn law_what_has_relations(role: Role)
    ensures
        carries_relations(role) <==> seq![
            Role::Button,
            Role::CheckBox,
            Role::ComboBox,
            Role::Editbar,
            Role::Entry,
            Role::Grouping,
            Role::PageTab,
            Role::Panel,
            Role::PasswordText,
            Role::RadioButton,
            Role::ScrollBar,
            Role::ScrollPane,
            Role::Slider,
            Role::SpinButton,
            Role::Text,
            Role::ToggleButton,
        ].contains(role),
{
    let all = seq![
        Role::Button,
        Role::CheckBox,
        Role::ComboBox,
        Role::Editbar,
        Role::Entry,
        Role::Grouping,
        Role::PageTab,
        Role::Panel,
        Role::PasswordText,
        Role::RadioButton,
        Role::ScrollBar,
        Role::ScrollPane,
        Role::Slider,
        Role::SpinButton,
        Role::Text,
        Role::ToggleButton,
    ];
    assert(all[0] == Role::Button);
    assert(all[1] == Role::CheckBox);
    assert(all[2] == Role::ComboBox);
    assert(all[3] == Role::Editbar);
    assert(all[4] == Role::Entry);
    assert(all[5] == Role::Grouping);
    assert(all[6] == Role::PageTab);
    assert(all[7] == Role::Panel);
    assert(all[8] == Role::PasswordText);
    assert(all[9] == Role::RadioButton);
    assert(all[10] == Role::ScrollBar);
    assert(all[11] == Role::ScrollPane);
    assert(all[12] == Role::Slider);
    assert(all[13] == Role::SpinButton);
    assert(all[14] == Role::Text);
    assert(all[15] == Role::ToggleButton);
}

/// Which roles are there to be on or off. All of them are clicked.
pub proof fn law_what_is_toggled(role: Role)
    ensures
        toggleable(role) <==> seq![
            Role::CheckBox,
            Role::CheckMenuItem,
            Role::RadioButton,
            Role::RadioMenuItem,
            Role::ToggleButton,
        ].contains(role),
        toggleable(role) ==> clickable(role),
{
    let all = seq![
        Role::CheckBox,
        Role::CheckMenuItem,
        Role::RadioButton,
        Role::RadioMenuItem,
        Role::ToggleButton,
    ];
    assert(all[0] == Role::CheckBox);
    assert(all[1] == Role::CheckMenuItem);
    assert(all[2] == Role::RadioButton);
    assert(all[3] == Role::RadioMenuItem);
    assert(all[4] == Role::ToggleButton);
}

/// Which roles are edited as text. All of them have a caret, attributes and relations.
pub proof fn law_what_is_edited(role: Role)
    ensures
        editable_text(role) <==> seq![
            Role::Entry,
            Role::PasswordText,
            Role::Text,
        ].contains(role),
        editable_text(role) ==> has_caret(role) && carries_attributes(role) && carries_relations(role),
        has_caret(role) && !editable_text(role) ==> role == Role::Terminal,
        has_caret(Role::Terminal),
{
    let all = seq![
        Role::Entry,
        Role::PasswordText,
        Role::Text,
    ];
    assert(all[0] == Role::Entry);
    assert(all[1] == Role::PasswordText);
    assert(all[2] == Role::Text);
}

/// Which roles are text that is only read. None of them is edited as text.
pub proof fn law_what_is_only_read(role: Role)
    ensures
        static_text(role) <==> seq![
            Role::DocumentEmail,
            Role::DocumentFrame,
            Role::DocumentPresentation,
            Role::DocumentSpreadsheet,
            Role::DocumentText,
            Role::DocumentWeb,
            Role::Label,
            Role::Paragraph,
            Role::Terminal,
        ].contains(role),
        !(static_text(role) && editable_text(role)),
        editable_text(role) ==> text_runs_read(role, true) && text_runs_read(role, false),
        static_text(role) ==> text_runs_read(role, false) && !text_runs_read(role, true),
        text_runs_read(role, false) ==> editable_text(role) || static_text(role),
{
    let all = seq![
        Role::DocumentEmail,
        Role::DocumentFrame,
        Role::DocumentPresentation,
        Role::DocumentSpreadsheet,
        Role::DocumentText,
        Role::DocumentWeb,
        Role::Label,
        Role::Paragraph,
        Role::Terminal,
    ];
    assert(all[0] == Role::DocumentEmail);
    assert(all[1] == Role::DocumentFrame);
    assert(all[2] == Role::DocumentPresentation);
    assert(all[3] == Role::DocumentSpreadsheet);
    assert(all[4] == Role::DocumentText);
    assert(all[5] == Role::DocumentWeb);
    assert(all[6] == Role::Label);
    assert(all[7] == Role::Paragraph);
    assert(all[8] == Role::Terminal);
}

/// What is forwarded of a set of states: each is said if it is in the set. Of what can be
/// open or shut, selected or not, and on, off or between, nothing is said unless a state
/// speaks of it.
pub proof fn law_states_say_what_they_hold(states: Set<State>)
    ensures
        ({
            let said = distilled(states);
            let on = |s: State| states.contains(s);
            &&& said.focusable == on(State::Focusable)
            &&& said.focused == on(State::Focused)
            &&& said.expanded is None ==> !on(State::Expandable) && !on(State::Expanded) && !on(
                State::Collapsed,
            )
            &&& said.expanded == Some(true) <==> on(State::Expanded)
            &&& said.expanded == Some(false) ==> on(State::Expandable) || on(State::Collapsed)
            &&& said.selected is None ==> !on(State::Selectable) && !on(State::Selected)
            &&& said.selected == Some(true) <==> on(State::Selected)
            &&& said.selected == Some(false) ==> on(State::Selectable)
            &&& said.toggled == Some(Toggled::Mixed) <==> on(State::Indeterminate)
            &&& said.toggled == Some(Toggled::True) <==> !on(State::Indeterminate) && (on(
                State::Checked,
            ) || on(State::Pressed))
            &&& said.toggled == Some(Toggled::False) ==> on(State::Checkable)
            &&& said.toggled is None ==> !on(State::Checkable)
            &&& said.has_popup == on(State::HasPopup)
            &&& on(State::Sensitive) ==> said.sensitive
            &&& on(State::Enabled) ==> said.sensitive
            &&& said.sensitive ==> on(State::Sensitive) || on(State::Enabled)
            &&& said.read_only == on(State::ReadOnly)
            &&& said.required == on(State::Required)
            &&& said.invalid == on(State::InvalidEntry)
            &&& said.modal == on(State::Modal)
            &&& said.multiselectable == on(State::Multiselectable)
            &&& said.busy == on(State::Busy)
            &&& said.orientation == Some(Orientation::Horizontal) <==> on(State::Horizontal)
                && !on(State::Vertical)
            &&& said.orientation == Some(Orientation::Vertical) <==> on(State::Vertical) && !on(
                State::Horizontal,
            )
        }),
{
}

/// A named grouping is a group; a name makes no difference to any other role.
pub proof fn law_a_name_makes_a_group(base: tree::Role, node: MirrorNode)
    ensures
        node.role != Role::Grouping || node.name@.len() == 0 ==> refined(base, node) == base,
        node.role == Role::Grouping && node.name@.len() > 0 ==> refined(base, node)
            == tree::Role::Group,
{
}

/// What is operated takes focus, is clicked by its role, or offers an action.
pub proof fn law_what_is_operated(node: MirrorNode)
    ensures
        node.states.focusable ==> node.control(),
        clickable(node.role) ==> node.control(),
        node.interfaces@.contains(Interface::Action) ==> node.control(),
        node.control() ==> node.states.focusable || clickable(node.role)
            || node.interfaces@.contains(Interface::Action),
{
}

/// Which relations are consumed, and as what.
pub proof fn law_each_relation_is_consumed_as_itself(kind: RelationType)
    ensures
        consumed_relation(kind) == Some(RelationKind::LabelledBy) <==> kind
            == RelationType::LabelledBy,
        consumed_relation(kind) == Some(RelationKind::Controls) <==> kind
            == RelationType::ControllerFor,
        consumed_relation(kind) == Some(RelationKind::DescribedBy) <==> kind
            == RelationType::DescribedBy,
        consumed_relation(kind) == Some(RelationKind::Details) <==> kind == RelationType::Details,
        consumed_relation(kind) == Some(RelationKind::ErrorMessage) <==> kind
            == RelationType::ErrorMessage,
        consumed_relation(kind) == Some(RelationKind::PopupFor) <==> kind == RelationType::PopupFor,
{
}

/// An attribute that is the numeral of a number that fits is read as that number, with or
/// without a plus sign. What is not there, or holds anything but digits, is none.
pub proof fn law_a_numeral_is_read_as_its_number(
    map: Map<Seq<char>, String>,
    key: Seq<char>,
    n: usize,
)
    ensures
        map.contains_key(key) && (map[key]@ == numeral(n as nat) || map[key]@ == seq!['+']
            + numeral(n as nat)) ==> count_attribute(map, key) == Some(n),
        !map.contains_key(key) ==> count_attribute(map, key) is None,
        map.contains_key(key) && map[key]@.len() == 0 ==> count_attribute(map, key) is None,
        map.contains_key(key) && (exists|i: int|
            0 < i < map[key]@.len() && !('0' <= #[trigger] map[key]@[i] <= '9'))
            ==> count_attribute(map, key) is None,
{
    let digits = numeral(n as nat);
    lemma_numeral_value(n as nat);
    assert(digits[0] != '+') by {
        assert(digit_value(digits[0]) is Some);
    }
    assert((seq!['+'] + digits).drop_first() =~= digits);
    if map.contains_key(key) {
        let text = map[key]@;
        if exists|i: int| 0 < i < text.len() && !('0' <= #[trigger] text[i] <= '9') {
            let i = choose|i: int| 0 < i < text.len() && !('0' <= #[trigger] text[i] <= '9');
            if text[0] == '+' {
                assert(text.drop_first()[i - 1] == text[i]);
            }
            assert(!all_digits(unsigned_digits(text)));
        }
    }
}

/// A placeholder is the text of its attribute, unless that is empty.
pub proof fn law_a_placeholder_says_something(map: Map<Seq<char>, String>)
    ensures
        placeholder_attribute(map) matches Some(text) ==> text.len() > 0 && map.contains_key(
            "placeholder-text"@,
        ) && text == map["placeholder-text"@]@,
        map.contains_key("placeholder-text"@) && map["placeholder-text"@]@.len() > 0
            ==> placeholder_attribute(map) is Some,
{
}

} // verus!
