//! What an element's role and subrole map to.
//!
//! The subrole comes first: the role says that an element is a text field, the
//! subrole whether it is one to search in or one for a password. Structural
//! containers map to the generic container, which a consumer filters out; so does
//! a role that is not known, for an unmapped role should be invisible, not
//! confusing. A container with a name is a real grouping and is promoted.

use crate::strings::same;
use crate::tree::Role;
use vstd::prelude::*;

verus! {

/// What a subrole determines on its own.
pub open spec fn subrole_role(subrole: Seq<char>) -> Option<Role> {
    if subrole == "AXStandardWindow"@ || subrole == "AXFloatingWindow"@ || subrole == "AXSystemFloatingWindow"@ {
        Some(Role::Window)
    } else if subrole == "AXDialog"@ || subrole == "AXSystemDialog"@ {
        Some(Role::Dialog)
    } else if subrole == "AXSearchField"@ {
        Some(Role::SearchInput)
    } else if subrole == "AXSecureTextField"@ {
        Some(Role::PasswordInput)
    } else if subrole == "AXToggle"@ || subrole == "AXSwitch"@ {
        Some(Role::Switch)
    } else if subrole == "AXCloseButton"@ || subrole == "AXMinimizeButton"@ || subrole == "AXZoomButton"@ || subrole == "AXFullScreenButton"@ || subrole == "AXToolbarButton"@ || subrole == "AXSortButton"@ || subrole == "AXIncrementArrow"@ || subrole == "AXDecrementArrow"@ || subrole == "AXIncrementPage"@ || subrole == "AXDecrementPage"@ {
        Some(Role::Button)
    } else if subrole == "AXOutlineRow"@ {
        Some(Role::TreeItem)
    } else if subrole == "AXTableRow"@ {
        Some(Role::Row)
    } else if subrole == "AXContentList"@ {
        Some(Role::List)
    } else if subrole == "AXDefinitionList"@ || subrole == "AXDescriptionList"@ {
        Some(Role::DescriptionList)
    } else if subrole == "AXRatingIndicator"@ {
        Some(Role::Slider)
    } else if subrole == "AXTimeline"@ {
        Some(Role::Group)
    } else if subrole == "AXDecorative"@ {
        Some(Role::GenericContainer)
    } else {
        None
    }
}

/// What a role determines on its own.
pub open spec fn plain_role(role: Seq<char>) -> Option<Role> {
    if role == "AXApplication"@ {
        Some(Role::Application)
    } else if role == "AXWindow"@ {
        Some(Role::Window)
    } else if role == "AXSheet"@ {
        Some(Role::Dialog)
    } else if role == "AXDrawer"@ || role == "AXPopover"@ {
        Some(Role::Group)
    } else if role == "AXButton"@ || role == "AXMenuButton"@ {
        Some(Role::Button)
    } else if role == "AXPopUpButton"@ || role == "AXComboBox"@ {
        Some(Role::ComboBox)
    } else if role == "AXCheckBox"@ {
        Some(Role::CheckBox)
    } else if role == "AXRadioButton"@ {
        Some(Role::RadioButton)
    } else if role == "AXRadioGroup"@ {
        Some(Role::RadioGroup)
    } else if role == "AXDisclosureTriangle"@ {
        Some(Role::DisclosureTriangle)
    } else if role == "AXColorWell"@ {
        Some(Role::ColorWell)
    } else if role == "AXStaticText"@ {
        Some(Role::Label)
    } else if role == "AXTextField"@ {
        Some(Role::TextInput)
    } else if role == "AXTextArea"@ {
        Some(Role::MultilineTextInput)
    } else if role == "AXDateField"@ {
        Some(Role::DateInput)
    } else if role == "AXTimeField"@ {
        Some(Role::TimeInput)
    } else if role == "AXHeading"@ {
        Some(Role::Heading)
    } else if role == "AXLink"@ {
        Some(Role::Link)
    } else if role == "AXImage"@ {
        Some(Role::Image)
    } else if role == "AXMenuBar"@ {
        Some(Role::MenuBar)
    } else if role == "AXMenuBarItem"@ || role == "AXMenuItem"@ {
        Some(Role::MenuItem)
    } else if role == "AXMenu"@ {
        Some(Role::Menu)
    } else if role == "AXTable"@ {
        Some(Role::Table)
    } else if role == "AXGrid"@ {
        Some(Role::Grid)
    } else if role == "AXOutline"@ {
        Some(Role::Tree)
    } else if role == "AXList"@ {
        Some(Role::List)
    } else if role == "AXRow"@ {
        Some(Role::Row)
    } else if role == "AXCell"@ {
        Some(Role::Cell)
    } else if role == "AXSlider"@ {
        Some(Role::Slider)
    } else if role == "AXIncrementor"@ {
        Some(Role::SpinButton)
    } else if role == "AXProgressIndicator"@ || role == "AXBusyIndicator"@ {
        Some(Role::ProgressIndicator)
    } else if role == "AXLevelIndicator"@ || role == "AXRelevanceIndicator"@ {
        Some(Role::Meter)
    } else if role == "AXScrollBar"@ {
        Some(Role::ScrollBar)
    } else if role == "AXSplitter"@ {
        Some(Role::Splitter)
    } else if role == "AXToolbar"@ {
        Some(Role::Toolbar)
    } else if role == "AXTabGroup"@ {
        Some(Role::TabList)
    } else if role == "AXHelpTag"@ {
        Some(Role::Tooltip)
    } else if role == "AXWebArea"@ {
        Some(Role::RootWebArea)
    } else if role == "AXGroup"@ || role == "AXSplitGroup"@ || role == "AXScrollArea"@ || role == "AXLayoutArea"@ || role == "AXLayoutItem"@ || role == "AXBrowser"@ || role == "AXMatte"@ || role == "AXRuler"@ || role == "AXRulerMarker"@ || role == "AXGrowArea"@ || role == "AXHandle"@ || role == "AXColumn"@ || role == "AXValueIndicator"@ || role == "AXUnknown"@ {
        Some(Role::GenericContainer)
    } else {
        None
    }
}

/// The contents of an optional subrole.
pub open spec fn subrole_view(subrole: Option<&str>) -> Option<Seq<char>> {
    match subrole {
        Some(s) => Some(s@),
        None => None,
    }
}

/// What the pair determines, if anything does: a subrole that is known, or else
/// the role.
pub open spec fn known_role(role: Seq<char>, subrole: Option<Seq<char>>) -> Option<Role> {
    match subrole {
        Some(s) => match subrole_role(s) {
            Some(mapped) => Some(mapped),
            None => plain_role(role),
        },
        None => plain_role(role),
    }
}

/// The role of a pair.
pub open spec fn mapped_role(role: Seq<char>, subrole: Option<Seq<char>>) -> Role {
    match known_role(role, subrole) {
        Some(mapped) => mapped,
        None => Role::GenericContainer,
    }
}

/// Maps an element's role and subrole.
pub fn map(role: &str, subrole: Option<&str>) -> (mapped: Role)
    ensures
        mapped == mapped_role(role@, subrole_view(subrole)),
{
    match subrole {
        Some(subrole) => match from_subrole(subrole) {
            Some(mapped) => {
                return mapped;
            },
            None => {},
        },
        None => {},
    }
    match from_role(role) {
        Some(mapped) => mapped,
        None => Role::GenericContainer,
    }
}

/// Whether the pair is known, as opposed to one that is a generic container for
/// want of anything better.
pub fn is_known(role: &str, subrole: Option<&str>) -> (known: bool)
    ensures
        known == (known_role(role@, subrole_view(subrole)) is Some),
{
    match subrole {
        Some(subrole) => if from_subrole(subrole).is_some() {
            return true;
        },
        None => {},
    }
    from_role(role).is_some()
}

fn from_subrole(subrole: &str) -> (role: Option<Role>)
    ensures
        role == subrole_role(subrole@),
{
    if same(subrole, "AXStandardWindow") || same(subrole, "AXFloatingWindow") || same(subrole, "AXSystemFloatingWindow") {
        Some(Role::Window)
    } else if same(subrole, "AXDialog") || same(subrole, "AXSystemDialog") {
        Some(Role::Dialog)
    } else if same(subrole, "AXSearchField") {
        Some(Role::SearchInput)
    } else if same(subrole, "AXSecureTextField") {
        Some(Role::PasswordInput)
    } else if same(subrole, "AXToggle") || same(subrole, "AXSwitch") {
        Some(Role::Switch)
    } else if same(subrole, "AXCloseButton") || same(subrole, "AXMinimizeButton") || same(subrole, "AXZoomButton") || same(subrole, "AXFullScreenButton") || same(subrole, "AXToolbarButton") || same(subrole, "AXSortButton") || same(subrole, "AXIncrementArrow") || same(subrole, "AXDecrementArrow") || same(subrole, "AXIncrementPage") || same(subrole, "AXDecrementPage") {
        Some(Role::Button)
    } else if same(subrole, "AXOutlineRow") {
        Some(Role::TreeItem)
    } else if same(subrole, "AXTableRow") {
        Some(Role::Row)
    } else if same(subrole, "AXContentList") {
        Some(Role::List)
    } else if same(subrole, "AXDefinitionList") || same(subrole, "AXDescriptionList") {
        Some(Role::DescriptionList)
    } else if same(subrole, "AXRatingIndicator") {
        Some(Role::Slider)
    } else if same(subrole, "AXTimeline") {
        Some(Role::Group)
    } else if same(subrole, "AXDecorative") {
        Some(Role::GenericContainer)
    } else {
        None
    }
}

fn from_role(role: &str) -> (mapped: Option<Role>)
    ensures
        mapped == plain_role(role@),
{
    if same(role, "AXApplication") {
        Some(Role::Application)
    } else if same(role, "AXWindow") {
        Some(Role::Window)
    } else if same(role, "AXSheet") {
        Some(Role::Dialog)
    } else if same(role, "AXDrawer") || same(role, "AXPopover") {
        Some(Role::Group)
    } else if same(role, "AXButton") || same(role, "AXMenuButton") {
        Some(Role::Button)
    } else if same(role, "AXPopUpButton") || same(role, "AXComboBox") {
        Some(Role::ComboBox)
    } else if same(role, "AXCheckBox") {
        Some(Role::CheckBox)
    } else if same(role, "AXRadioButton") {
        Some(Role::RadioButton)
    } else if same(role, "AXRadioGroup") {
        Some(Role::RadioGroup)
    } else if same(role, "AXDisclosureTriangle") {
        Some(Role::DisclosureTriangle)
    } else if same(role, "AXColorWell") {
        Some(Role::ColorWell)
    } else if same(role, "AXStaticText") {
        Some(Role::Label)
    } else if same(role, "AXTextField") {
        Some(Role::TextInput)
    } else if same(role, "AXTextArea") {
        Some(Role::MultilineTextInput)
    } else if same(role, "AXDateField") {
        Some(Role::DateInput)
    } else if same(role, "AXTimeField") {
        Some(Role::TimeInput)
    } else if same(role, "AXHeading") {
        Some(Role::Heading)
    } else if same(role, "AXLink") {
        Some(Role::Link)
    } else if same(role, "AXImage") {
        Some(Role::Image)
    } else if same(role, "AXMenuBar") {
        Some(Role::MenuBar)
    } else if same(role, "AXMenuBarItem") || same(role, "AXMenuItem") {
        Some(Role::MenuItem)
    } else if same(role, "AXMenu") {
        Some(Role::Menu)
    } else if same(role, "AXTable") {
        Some(Role::Table)
    } else if same(role, "AXGrid") {
        Some(Role::Grid)
    } else if same(role, "AXOutline") {
        Some(Role::Tree)
    } else if same(role, "AXList") {
        Some(Role::List)
    } else if same(role, "AXRow") {
        Some(Role::Row)
    } else if same(role, "AXCell") {
        Some(Role::Cell)
    } else if same(role, "AXSlider") {
        Some(Role::Slider)
    } else if same(role, "AXIncrementor") {
        Some(Role::SpinButton)
    } else if same(role, "AXProgressIndicator") || same(role, "AXBusyIndicator") {
        Some(Role::ProgressIndicator)
    } else if same(role, "AXLevelIndicator") || same(role, "AXRelevanceIndicator") {
        Some(Role::Meter)
    } else if same(role, "AXScrollBar") {
        Some(Role::ScrollBar)
    } else if same(role, "AXSplitter") {
        Some(Role::Splitter)
    } else if same(role, "AXToolbar") {
        Some(Role::Toolbar)
    } else if same(role, "AXTabGroup") {
        Some(Role::TabList)
    } else if same(role, "AXHelpTag") {
        Some(Role::Tooltip)
    } else if same(role, "AXWebArea") {
        Some(Role::RootWebArea)
    } else if same(role, "AXGroup") || same(role, "AXSplitGroup") || same(role, "AXScrollArea") || same(role, "AXLayoutArea") || same(role, "AXLayoutItem") || same(role, "AXBrowser") || same(role, "AXMatte") || same(role, "AXRuler") || same(role, "AXRulerMarker") || same(role, "AXGrowArea") || same(role, "AXHandle") || same(role, "AXColumn") || same(role, "AXValueIndicator") || same(role, "AXUnknown") {
        Some(Role::GenericContainer)
    } else {
        None
    }
}

/// A generic container with a name is a grouping; every other role stays.
pub open spec fn refined_role(base: Role, has_name: bool) -> Role {
    if base == Role::GenericContainer && has_name {
        Role::Group
    } else {
        base
    }
}

/// Promotes a role once it is known whether the element has a name.
pub fn refine(base: Role, has_name: bool) -> (role: Role)
    ensures
        role == refined_role(base, has_name),
{
    if base == Role::GenericContainer && has_name {
        return Role::Group;
    }
    base
}

/// Whether this is the role of a toplevel that a window's walk starts from.
pub fn is_window(role: &str) -> (window: bool)
    ensures
        window == (role@ == "AXWindow"@),
{
    same(role, "AXWindow")
}

/// Which subroles determine a role on their own: each role comes from these, and nothing
/// else is determined.
pub proof fn law_each_role_has_its_subroles(subrole: Seq<char>)
    ensures
        subrole_role(subrole) is Some <==> seq![
            "AXStandardWindow"@,
            "AXFloatingWindow"@,
            "AXSystemFloatingWindow"@,
            "AXDialog"@,
            "AXSystemDialog"@,
            "AXSearchField"@,
            "AXSecureTextField"@,
            "AXToggle"@,
            "AXSwitch"@,
            "AXCloseButton"@,
            "AXMinimizeButton"@,
            "AXZoomButton"@,
            "AXFullScreenButton"@,
            "AXToolbarButton"@,
            "AXSortButton"@,
            "AXIncrementArrow"@,
            "AXDecrementArrow"@,
            "AXIncrementPage"@,
            "AXDecrementPage"@,
            "AXOutlineRow"@,
            "AXTableRow"@,
            "AXContentList"@,
            "AXDefinitionList"@,
            "AXDescriptionList"@,
            "AXRatingIndicator"@,
            "AXTimeline"@,
            "AXDecorative"@,
        ].contains(subrole),
        subrole_role(subrole) == Some(Role::Window) ==> subrole == "AXStandardWindow"@
            || subrole == "AXFloatingWindow"@ || subrole == "AXSystemFloatingWindow"@,
        subrole_role(subrole) == Some(Role::Dialog) ==> subrole == "AXDialog"@
            || subrole == "AXSystemDialog"@,
        subrole_role(subrole) == Some(Role::SearchInput) ==> subrole == "AXSearchField"@,
        subrole_role(subrole) == Some(Role::PasswordInput) ==> subrole == "AXSecureTextField"@,
        subrole_role(subrole) == Some(Role::Switch) ==> subrole == "AXToggle"@
            || subrole == "AXSwitch"@,
        subrole_role(subrole) == Some(Role::Button) ==> subrole == "AXCloseButton"@
            || subrole == "AXMinimizeButton"@ || subrole == "AXZoomButton"@
            || subrole == "AXFullScreenButton"@ || subrole == "AXToolbarButton"@
            || subrole == "AXSortButton"@ || subrole == "AXIncrementArrow"@
            || subrole == "AXDecrementArrow"@ || subrole == "AXIncrementPage"@
            || subrole == "AXDecrementPage"@,
        subrole_role(subrole) == Some(Role::TreeItem) ==> subrole == "AXOutlineRow"@,
        subrole_role(subrole) == Some(Role::Row) ==> subrole == "AXTableRow"@,
        subrole_role(subrole) == Some(Role::List) ==> subrole == "AXContentList"@,
        subrole_role(subrole) == Some(Role::DescriptionList) ==> subrole == "AXDefinitionList"@
            || subrole == "AXDescriptionList"@,
        subrole_role(subrole) == Some(Role::Slider) ==> subrole == "AXRatingIndicator"@,
        subrole_role(subrole) == Some(Role::Group) ==> subrole == "AXTimeline"@,
        subrole_role(subrole) == Some(Role::GenericContainer) ==> subrole == "AXDecorative"@,
        subrole_role(subrole) matches Some(mapped) ==> mapped == Role::Window
            || mapped == Role::Dialog || mapped == Role::SearchInput
            || mapped == Role::PasswordInput || mapped == Role::Switch || mapped == Role::Button
            || mapped == Role::TreeItem || mapped == Role::Row || mapped == Role::List
            || mapped == Role::DescriptionList || mapped == Role::Slider
            || mapped == Role::Group || mapped == Role::GenericContainer,
{
    let known = seq![
        "AXStandardWindow"@,
        "AXFloatingWindow"@,
        "AXSystemFloatingWindow"@,
        "AXDialog"@,
        "AXSystemDialog"@,
        "AXSearchField"@,
        "AXSecureTextField"@,
        "AXToggle"@,
        "AXSwitch"@,
        "AXCloseButton"@,
        "AXMinimizeButton"@,
        "AXZoomButton"@,
        "AXFullScreenButton"@,
        "AXToolbarButton"@,
        "AXSortButton"@,
        "AXIncrementArrow"@,
        "AXDecrementArrow"@,
        "AXIncrementPage"@,
        "AXDecrementPage"@,
        "AXOutlineRow"@,
        "AXTableRow"@,
        "AXContentList"@,
        "AXDefinitionList"@,
        "AXDescriptionList"@,
        "AXRatingIndicator"@,
        "AXTimeline"@,
        "AXDecorative"@,
    ];
    assert(known[0] == "AXStandardWindow"@);
    assert(known[1] == "AXFloatingWindow"@);
    assert(known[2] == "AXSystemFloatingWindow"@);
    assert(known[3] == "AXDialog"@);
    assert(known[4] == "AXSystemDialog"@);
    assert(known[5] == "AXSearchField"@);
    assert(known[6] == "AXSecureTextField"@);
    assert(known[7] == "AXToggle"@);
    assert(known[8] == "AXSwitch"@);
    assert(known[9] == "AXCloseButton"@);
    assert(known[10] == "AXMinimizeButton"@);
    assert(known[11] == "AXZoomButton"@);
    assert(known[12] == "AXFullScreenButton"@);
    assert(known[13] == "AXToolbarButton"@);
    assert(known[14] == "AXSortButton"@);
    assert(known[15] == "AXIncrementArrow"@);
    assert(known[16] == "AXDecrementArrow"@);
    assert(known[17] == "AXIncrementPage"@);
    assert(known[18] == "AXDecrementPage"@);
    assert(known[19] == "AXOutlineRow"@);
    assert(known[20] == "AXTableRow"@);
    assert(known[21] == "AXContentList"@);
    assert(known[22] == "AXDefinitionList"@);
    assert(known[23] == "AXDescriptionList"@);
    assert(known[24] == "AXRatingIndicator"@);
    assert(known[25] == "AXTimeline"@);
    assert(known[26] == "AXDecorative"@);
}

/// Which roles are known, and from which names each role comes.
pub proof fn law_each_role_has_its_names(role: Seq<char>)
    ensures
        plain_role(role) is Some <==> seq![
            "AXApplication"@,
            "AXWindow"@,
            "AXSheet"@,
            "AXDrawer"@,
            "AXPopover"@,
            "AXButton"@,
            "AXMenuButton"@,
            "AXPopUpButton"@,
            "AXComboBox"@,
            "AXCheckBox"@,
            "AXRadioButton"@,
            "AXRadioGroup"@,
            "AXDisclosureTriangle"@,
            "AXColorWell"@,
            "AXStaticText"@,
            "AXTextField"@,
            "AXTextArea"@,
            "AXDateField"@,
            "AXTimeField"@,
            "AXHeading"@,
            "AXLink"@,
            "AXImage"@,
            "AXMenuBar"@,
            "AXMenuBarItem"@,
            "AXMenuItem"@,
            "AXMenu"@,
            "AXTable"@,
            "AXGrid"@,
            "AXOutline"@,
            "AXList"@,
            "AXRow"@,
            "AXCell"@,
            "AXSlider"@,
            "AXIncrementor"@,
            "AXProgressIndicator"@,
            "AXBusyIndicator"@,
            "AXLevelIndicator"@,
            "AXRelevanceIndicator"@,
            "AXScrollBar"@,
            "AXSplitter"@,
            "AXToolbar"@,
            "AXTabGroup"@,
            "AXHelpTag"@,
            "AXWebArea"@,
            "AXGroup"@,
            "AXSplitGroup"@,
            "AXScrollArea"@,
            "AXLayoutArea"@,
            "AXLayoutItem"@,
            "AXBrowser"@,
            "AXMatte"@,
            "AXRuler"@,
            "AXRulerMarker"@,
            "AXGrowArea"@,
            "AXHandle"@,
            "AXColumn"@,
            "AXValueIndicator"@,
            "AXUnknown"@,
        ].contains(role),
        plain_role(role) == Some(Role::Application) ==> role == "AXApplication"@,
        plain_role(role) == Some(Role::Window) ==> role == "AXWindow"@,
        plain_role(role) == Some(Role::Dialog) ==> role == "AXSheet"@,
        plain_role(role) == Some(Role::Group) ==> role == "AXDrawer"@ || role == "AXPopover"@,
        plain_role(role) == Some(Role::Button) ==> role == "AXButton"@ || role == "AXMenuButton"@,
        plain_role(role) == Some(Role::ComboBox) ==> role == "AXPopUpButton"@
            || role == "AXComboBox"@,
        plain_role(role) == Some(Role::CheckBox) ==> role == "AXCheckBox"@,
        plain_role(role) == Some(Role::RadioButton) ==> role == "AXRadioButton"@,
        plain_role(role) == Some(Role::RadioGroup) ==> role == "AXRadioGroup"@,
        plain_role(role) == Some(Role::DisclosureTriangle) ==> role == "AXDisclosureTriangle"@,
        plain_role(role) == Some(Role::ColorWell) ==> role == "AXColorWell"@,
        plain_role(role) == Some(Role::Label) ==> role == "AXStaticText"@,
        plain_role(role) == Some(Role::TextInput) ==> role == "AXTextField"@,
        plain_role(role) == Some(Role::MultilineTextInput) ==> role == "AXTextArea"@,
        plain_role(role) == Some(Role::DateInput) ==> role == "AXDateField"@,
        plain_role(role) == Some(Role::TimeInput) ==> role == "AXTimeField"@,
        plain_role(role) == Some(Role::Heading) ==> role == "AXHeading"@,
        plain_role(role) == Some(Role::Link) ==> role == "AXLink"@,
        plain_role(role) == Some(Role::Image) ==> role == "AXImage"@,
        plain_role(role) == Some(Role::MenuBar) ==> role == "AXMenuBar"@,
        plain_role(role) == Some(Role::MenuItem) ==> role == "AXMenuBarItem"@
            || role == "AXMenuItem"@,
        plain_role(role) == Some(Role::Menu) ==> role == "AXMenu"@,
        plain_role(role) == Some(Role::Table) ==> role == "AXTable"@,
        plain_role(role) == Some(Role::Grid) ==> role == "AXGrid"@,
        plain_role(role) == Some(Role::Tree) ==> role == "AXOutline"@,
        plain_role(role) == Some(Role::List) ==> role == "AXList"@,
        plain_role(role) == Some(Role::Row) ==> role == "AXRow"@,
        plain_role(role) == Some(Role::Cell) ==> role == "AXCell"@,
        plain_role(role) == Some(Role::Slider) ==> role == "AXSlider"@,
        plain_role(role) == Some(Role::SpinButton) ==> role == "AXIncrementor"@,
        plain_role(role) == Some(Role::ProgressIndicator) ==> role == "AXProgressIndicator"@
            || role == "AXBusyIndicator"@,
        plain_role(role) == Some(Role::Meter) ==> role == "AXLevelIndicator"@
            || role == "AXRelevanceIndicator"@,
        plain_role(role) == Some(Role::ScrollBar) ==> role == "AXScrollBar"@,
        plain_role(role) == Some(Role::Splitter) ==> role == "AXSplitter"@,
        plain_role(role) == Some(Role::Toolbar) ==> role == "AXToolbar"@,
        plain_role(role) == Some(Role::TabList) ==> role == "AXTabGroup"@,
        plain_role(role) == Some(Role::Tooltip) ==> role == "AXHelpTag"@,
        plain_role(role) == Some(Role::RootWebArea) ==> role == "AXWebArea"@,
        plain_role(role) == Some(Role::GenericContainer) ==> role == "AXGroup"@
            || role == "AXSplitGroup"@ || role == "AXScrollArea"@ || role == "AXLayoutArea"@
            || role == "AXLayoutItem"@ || role == "AXBrowser"@ || role == "AXMatte"@
            || role == "AXRuler"@ || role == "AXRulerMarker"@ || role == "AXGrowArea"@
            || role == "AXHandle"@ || role == "AXColumn"@ || role == "AXValueIndicator"@
            || role == "AXUnknown"@,
        plain_role(role) matches Some(mapped) ==> mapped == Role::Application
            || mapped == Role::Window || mapped == Role::Dialog || mapped == Role::Group
            || mapped == Role::Button || mapped == Role::ComboBox || mapped == Role::CheckBox
            || mapped == Role::RadioButton || mapped == Role::RadioGroup
            || mapped == Role::DisclosureTriangle || mapped == Role::ColorWell
            || mapped == Role::Label || mapped == Role::TextInput
            || mapped == Role::MultilineTextInput || mapped == Role::DateInput
            || mapped == Role::TimeInput || mapped == Role::Heading || mapped == Role::Link
            || mapped == Role::Image || mapped == Role::MenuBar || mapped == Role::MenuItem
            || mapped == Role::Menu || mapped == Role::Table || mapped == Role::Grid
            || mapped == Role::Tree || mapped == Role::List || mapped == Role::Row
            || mapped == Role::Cell || mapped == Role::Slider || mapped == Role::SpinButton
            || mapped == Role::ProgressIndicator || mapped == Role::Meter
            || mapped == Role::ScrollBar || mapped == Role::Splitter || mapped == Role::Toolbar
            || mapped == Role::TabList || mapped == Role::Tooltip || mapped == Role::RootWebArea
            || mapped == Role::GenericContainer,
{
    let known = seq![
        "AXApplication"@,
        "AXWindow"@,
        "AXSheet"@,
        "AXDrawer"@,
        "AXPopover"@,
        "AXButton"@,
        "AXMenuButton"@,
        "AXPopUpButton"@,
        "AXComboBox"@,
        "AXCheckBox"@,
        "AXRadioButton"@,
        "AXRadioGroup"@,
        "AXDisclosureTriangle"@,
        "AXColorWell"@,
        "AXStaticText"@,
        "AXTextField"@,
        "AXTextArea"@,
        "AXDateField"@,
        "AXTimeField"@,
        "AXHeading"@,
        "AXLink"@,
        "AXImage"@,
        "AXMenuBar"@,
        "AXMenuBarItem"@,
        "AXMenuItem"@,
        "AXMenu"@,
        "AXTable"@,
        "AXGrid"@,
        "AXOutline"@,
        "AXList"@,
        "AXRow"@,
        "AXCell"@,
        "AXSlider"@,
        "AXIncrementor"@,
        "AXProgressIndicator"@,
        "AXBusyIndicator"@,
        "AXLevelIndicator"@,
        "AXRelevanceIndicator"@,
        "AXScrollBar"@,
        "AXSplitter"@,
        "AXToolbar"@,
        "AXTabGroup"@,
        "AXHelpTag"@,
        "AXWebArea"@,
        "AXGroup"@,
        "AXSplitGroup"@,
        "AXScrollArea"@,
        "AXLayoutArea"@,
        "AXLayoutItem"@,
        "AXBrowser"@,
        "AXMatte"@,
        "AXRuler"@,
        "AXRulerMarker"@,
        "AXGrowArea"@,
        "AXHandle"@,
        "AXColumn"@,
        "AXValueIndicator"@,
        "AXUnknown"@,
    ];
    assert(known[0] == "AXApplication"@);
    assert(known[1] == "AXWindow"@);
    assert(known[2] == "AXSheet"@);
    assert(known[3] == "AXDrawer"@);
    assert(known[4] == "AXPopover"@);
    assert(known[5] == "AXButton"@);
    assert(known[6] == "AXMenuButton"@);
    assert(known[7] == "AXPopUpButton"@);
    assert(known[8] == "AXComboBox"@);
    assert(known[9] == "AXCheckBox"@);
    assert(known[10] == "AXRadioButton"@);
    assert(known[11] == "AXRadioGroup"@);
    assert(known[12] == "AXDisclosureTriangle"@);
    assert(known[13] == "AXColorWell"@);
    assert(known[14] == "AXStaticText"@);
    assert(known[15] == "AXTextField"@);
    assert(known[16] == "AXTextArea"@);
    assert(known[17] == "AXDateField"@);
    assert(known[18] == "AXTimeField"@);
    assert(known[19] == "AXHeading"@);
    assert(known[20] == "AXLink"@);
    assert(known[21] == "AXImage"@);
    assert(known[22] == "AXMenuBar"@);
    assert(known[23] == "AXMenuBarItem"@);
    assert(known[24] == "AXMenuItem"@);
    assert(known[25] == "AXMenu"@);
    assert(known[26] == "AXTable"@);
    assert(known[27] == "AXGrid"@);
    assert(known[28] == "AXOutline"@);
    assert(known[29] == "AXList"@);
    assert(known[30] == "AXRow"@);
    assert(known[31] == "AXCell"@);
    assert(known[32] == "AXSlider"@);
    assert(known[33] == "AXIncrementor"@);
    assert(known[34] == "AXProgressIndicator"@);
    assert(known[35] == "AXBusyIndicator"@);
    assert(known[36] == "AXLevelIndicator"@);
    assert(known[37] == "AXRelevanceIndicator"@);
    assert(known[38] == "AXScrollBar"@);
    assert(known[39] == "AXSplitter"@);
    assert(known[40] == "AXToolbar"@);
    assert(known[41] == "AXTabGroup"@);
    assert(known[42] == "AXHelpTag"@);
    assert(known[43] == "AXWebArea"@);
    assert(known[44] == "AXGroup"@);
    assert(known[45] == "AXSplitGroup"@);
    assert(known[46] == "AXScrollArea"@);
    assert(known[47] == "AXLayoutArea"@);
    assert(known[48] == "AXLayoutItem"@);
    assert(known[49] == "AXBrowser"@);
    assert(known[50] == "AXMatte"@);
    assert(known[51] == "AXRuler"@);
    assert(known[52] == "AXRulerMarker"@);
    assert(known[53] == "AXGrowArea"@);
    assert(known[54] == "AXHandle"@);
    assert(known[55] == "AXColumn"@);
    assert(known[56] == "AXValueIndicator"@);
    assert(known[57] == "AXUnknown"@);
}

/// A subrole that is known decides; without one the role does. What neither knows is a
/// generic container.
pub proof fn law_a_subrole_decides_first(role: Seq<char>, subrole: Option<Seq<char>>)
    ensures
        (subrole is Some && subrole_role(subrole->0) is Some) ==> Some(mapped_role(role, subrole))
            == subrole_role(subrole->0),
        (subrole is None || subrole_role(subrole->0) is None) && plain_role(role) is Some
            ==> Some(mapped_role(role, subrole)) == plain_role(role),
        known_role(role, subrole) is None <==> plain_role(role) is None && (subrole is None
            || subrole_role(subrole->0) is None),
        known_role(role, subrole) is None ==> mapped_role(role, subrole) == Role::GenericContainer,
{
}

/// A name makes a group of a generic container and changes no other role.
pub proof fn law_a_name_makes_a_group(base: Role, has_name: bool)
    ensures
        base != Role::GenericContainer ==> refined_role(base, has_name) == base,
        refined_role(base, false) == base,
        refined_role(Role::GenericContainer, true) == Role::Group,
{
}

} // verus!
