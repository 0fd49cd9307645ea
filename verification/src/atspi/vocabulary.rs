//! The words AT-SPI describes an object with: roles, states, interfaces and
//! relations.

use vstd::prelude::*;

verus! {

/// What kind of object an application says it exposes.
#[derive(Debug, Clone, Copy, PartialEq, Eq, Structural)]
pub enum Role {
    Invalid,
    AcceleratorLabel,
    Alert,
    Animation,
    Arrow,
    Calendar,
    Canvas,
    CheckBox,
    CheckMenuItem,
    ColorChooser,
    ColumnHeader,
    ComboBox,
    DateEditor,
    DesktopIcon,
    DesktopFrame,
    Dial,
    Dialog,
    DirectoryPane,
    DrawingArea,
    FileChooser,
    Filler,
    FocusTraversable,
    FontChooser,
    Frame,
    GlassPane,
    HTMLContainer,
    Icon,
    Image,
    InternalFrame,
    Label,
    LayeredPane,
    List,
    ListItem,
    Menu,
    MenuBar,
    MenuItem,
    OptionPane,
    PageTab,
    PageTabList,
    Panel,
    PasswordText,
    PopupMenu,
    ProgressBar,
    Button,
    RadioButton,
    RadioMenuItem,
    RootPane,
    RowHeader,
    ScrollBar,
    ScrollPane,
    Separator,
    Slider,
    SpinButton,
    SplitPane,
    StatusBar,
    Table,
    TableCell,
    TableColumnHeader,
    TableRowHeader,
    TearoffMenuItem,
    Terminal,
    Text,
    ToggleButton,
    ToolBar,
    ToolTip,
    Tree,
    TreeTable,
    Unknown,
    Viewport,
    Window,
    Extended,
    Header,
    Footer,
    Paragraph,
    Ruler,
    Application,
    Autocomplete,
    Editbar,
    Embedded,
    Entry,
    CHART,
    Caption,
    DocumentFrame,
    Heading,
    Page,
    Section,
    RedundantObject,
    Form,
    Link,
    InputMethodWindow,
    TableRow,
    TreeItem,
    DocumentSpreadsheet,
    DocumentPresentation,
    DocumentText,
    DocumentWeb,
    DocumentEmail,
    Comment,
    ListBox,
    Grouping,
    ImageMap,
    Notification,
    InfoBar,
    LevelBar,
    TitleBar,
    BlockQuote,
    Audio,
    Video,
    Definition,
    Article,
    Landmark,
    Log,
    Marquee,
    Math,
    Rating,
    Timer,
    Static,
    MathFraction,
    MathRoot,
    Subscript,
    Superscript,
    DescriptionList,
    DescriptionTerm,
    DescriptionValue,
    Footnote,
    ContentDeletion,
    ContentInsertion,
    Mark,
    Suggestion,
    PushButtonMenu,
}

/// One thing an object can be in the state of.
#[derive(Debug, Clone, Copy, PartialEq, Eq, Structural)]
pub enum State {
    Invalid,
    Active,
    Armed,
    Busy,
    Checked,
    Collapsed,
    Defunct,
    Editable,
    Enabled,
    Expandable,
    Expanded,
    Focusable,
    Focused,
    HasTooltip,
    Horizontal,
    Iconified,
    Modal,
    MultiLine,
    Multiselectable,
    Opaque,
    Pressed,
    Resizable,
    Selectable,
    Selected,
    Sensitive,
    Showing,
    SingleLine,
    Stale,
    Transient,
    Vertical,
    Visible,
    ManagesDescendants,
    Indeterminate,
    Required,
    Truncated,
    Animated,
    InvalidEntry,
    SupportsAutocompletion,
    SelectableText,
    IsDefault,
    Visited,
    Checkable,
    HasPopup,
    ReadOnly,
}

/// An interface an object can advertise.
#[derive(Debug, Clone, Copy, PartialEq, Eq, Structural)]
pub enum Interface {
    Accessible,
    Action,
    Application,
    Cache,
    Collection,
    Component,
    Document,
    DeviceEventController,
    DeviceEventListener,
    EditableText,
    Hyperlink,
    Hypertext,
    Image,
    Registry,
    Selection,
    Socket,
    Table,
    TableCell,
    Text,
    Value,
}

/// How one object relates to another.
#[derive(Debug, Clone, Copy, PartialEq, Eq, Structural)]
pub enum RelationType {
    Null,
    LabelFor,
    LabelledBy,
    ControllerFor,
    ControlledBy,
    MemberOf,
    TooltipFor,
    NodeChildOf,
    NodeParentOf,
    Extended,
    FlowsTo,
    FlowsFrom,
    SubwindowOf,
    Embeds,
    EmbeddedBy,
    PopupFor,
    ParentWindowOf,
    DescriptionFor,
    DescribedBy,
    Details,
    DetailsFor,
    ErrorMessage,
    ErrorFor,
}

/// The states an object reports.
#[derive(Debug, Clone, PartialEq)]
pub struct StateSet {
    states: Vec<State>,
}

impl View for StateSet {
    type V = Set<State>;

    closed spec fn view(&self) -> Set<State> {
        self.states@.to_set()
    }
}

impl StateSet {
    pub fn empty() -> (set: Self)
        ensures
            set@ == Set::<State>::empty(),
    {
        let set = StateSet { states: Vec::new() };
        assert(set@ =~= Set::<State>::empty());
        set
    }

    /// The set of the one state `state`.
    pub fn new(state: State) -> (set: Self)
        ensures
            set@ == Set::<State>::empty().insert(state),
    {
        let mut set = StateSet::empty();
        set.insert(state);
        set
    }

    pub fn insert(&mut self, state: State)
        ensures
            final(self)@ == old(self)@.insert(state),
    {
        self.states.push(state);
        proof {
            let (before, after) = (old(self).states@, self.states@);
            assert forall|s: State| after.contains(s) <==> before.contains(s) || s == state by {
                if before.contains(s) {
                    let i = choose|i: int| 0 <= i < before.len() && before[i] == s;
                    assert(after[i] == s);
                }
                if s == state {
                    assert(after[before.len() as int] == s);
                }
            }
            assert(self@ =~= old(self)@.insert(state));
        }
    }

    pub fn contains(&self, state: State) -> (found: bool)
        ensures
            found == self@.contains(state),
    {
        for i in 0..self.states.len()
            invariant
                forall|j: int| 0 <= j < i ==> self.states@[j] != state,
        {
            if self.states[i] == state {
                return true;
            }
        }
        false
    }
}

/// The interfaces an object advertises.
#[derive(Debug, Clone, PartialEq)]
pub struct InterfaceSet {
    interfaces: Vec<Interface>,
}

impl View for InterfaceSet {
    type V = Set<Interface>;

    closed spec fn view(&self) -> Set<Interface> {
        self.interfaces@.to_set()
    }
}

impl InterfaceSet {
    pub fn empty() -> (set: Self)
        ensures
            set@ == Set::<Interface>::empty(),
    {
        let set = InterfaceSet { interfaces: Vec::new() };
        assert(set@ =~= Set::<Interface>::empty());
        set
    }

    pub fn insert(&mut self, interface: Interface)
        ensures
            final(self)@ == old(self)@.insert(interface),
    {
        self.interfaces.push(interface);
        proof {
            let (before, after) = (old(self).interfaces@, self.interfaces@);
            assert forall|s: Interface| after.contains(s) <==> before.contains(s) || s == interface
                by {
                if before.contains(s) {
                    let i = choose|i: int| 0 <= i < before.len() && before[i] == s;
                    assert(after[i] == s);
                }
                if s == interface {
                    assert(after[before.len() as int] == s);
                }
            }
            assert(self@ =~= old(self)@.insert(interface));
        }
    }

    pub fn contains(&self, interface: Interface) -> (found: bool)
        ensures
            found == self@.contains(interface),
    {
        for i in 0..self.interfaces.len()
            invariant
                forall|j: int| 0 <= j < i ==> self.interfaces@[j] != interface,
        {
            if self.interfaces[i] == interface {
                return true;
            }
        }
        false
    }
}

} // verus!
