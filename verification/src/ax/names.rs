//! Attribute and action names. The strings themselves are the stable public
//! contract of the accessibility interface; no header exports them.

use vstd::prelude::*;

verus! {

/// The attribute names that are read or written.
pub struct Names {
    pub role: &'static str,
    pub subrole: &'static str,
    pub role_description: &'static str,
    pub title: &'static str,
    pub description: &'static str,
    pub help: &'static str,
    pub identifier: &'static str,
    pub children: &'static str,
    pub parent: &'static str,
    pub windows: &'static str,
    pub main_window: &'static str,
    pub focused_window: &'static str,
    pub focused_ui_element: &'static str,
    pub menu_bar: &'static str,
    pub frame: &'static str,
    pub position: &'static str,
    pub size: &'static str,
    pub value: &'static str,
    pub enabled: &'static str,
    pub focused: &'static str,
    pub selected: &'static str,
    pub expanded: &'static str,
    pub main: &'static str,
    pub minimized: &'static str,
    pub hidden: &'static str,
    pub selected_text_range: &'static str,
    pub bounds_for_range: &'static str,
    pub placeholder: &'static str,
    pub title_ui_element: &'static str,
    pub manual_accessibility: &'static str,
}

/// The name of each field and the attribute it stands for.
pub open spec fn table() -> Seq<(Seq<char>, Seq<char>)> {
    seq![
        ("role"@, "AXRole"@),
        ("subrole"@, "AXSubrole"@),
        ("role_description"@, "AXRoleDescription"@),
        ("title"@, "AXTitle"@),
        ("description"@, "AXDescription"@),
        ("help"@, "AXHelp"@),
        ("identifier"@, "AXIdentifier"@),
        ("children"@, "AXChildren"@),
        ("parent"@, "AXParent"@),
        ("windows"@, "AXWindows"@),
        ("main_window"@, "AXMainWindow"@),
        ("focused_window"@, "AXFocusedWindow"@),
        ("focused_ui_element"@, "AXFocusedUIElement"@),
        ("menu_bar"@, "AXMenuBar"@),
        ("frame"@, "AXFrame"@),
        ("position"@, "AXPosition"@),
        ("size"@, "AXSize"@),
        ("value"@, "AXValue"@),
        ("enabled"@, "AXEnabled"@),
        ("focused"@, "AXFocused"@),
        ("selected"@, "AXSelected"@),
        ("expanded"@, "AXExpanded"@),
        ("main"@, "AXMain"@),
        ("minimized"@, "AXMinimized"@),
        ("hidden"@, "AXHidden"@),
        ("selected_text_range"@, "AXSelectedTextRange"@),
        ("bounds_for_range"@, "AXBoundsForRange"@),
        ("placeholder"@, "AXPlaceholderValue"@),
        ("title_ui_element"@, "AXTitleUIElement"@),
        ("manual_accessibility"@, "AXManualAccessibility"@),
    ]
}

/// Whether each field holds the attribute it stands for.
pub open spec fn standard(names: Names) -> bool {
    &&& names.role@ == "AXRole"@
    &&& names.subrole@ == "AXSubrole"@
    &&& names.role_description@ == "AXRoleDescription"@
    &&& names.title@ == "AXTitle"@
    &&& names.description@ == "AXDescription"@
    &&& names.help@ == "AXHelp"@
    &&& names.identifier@ == "AXIdentifier"@
    &&& names.children@ == "AXChildren"@
    &&& names.parent@ == "AXParent"@
    &&& names.windows@ == "AXWindows"@
    &&& names.main_window@ == "AXMainWindow"@
    &&& names.focused_window@ == "AXFocusedWindow"@
    &&& names.focused_ui_element@ == "AXFocusedUIElement"@
    &&& names.menu_bar@ == "AXMenuBar"@
    &&& names.frame@ == "AXFrame"@
    &&& names.position@ == "AXPosition"@
    &&& names.size@ == "AXSize"@
    &&& names.value@ == "AXValue"@
    &&& names.enabled@ == "AXEnabled"@
    &&& names.focused@ == "AXFocused"@
    &&& names.selected@ == "AXSelected"@
    &&& names.expanded@ == "AXExpanded"@
    &&& names.main@ == "AXMain"@
    &&& names.minimized@ == "AXMinimized"@
    &&& names.hidden@ == "AXHidden"@
    &&& names.selected_text_range@ == "AXSelectedTextRange"@
    &&& names.bounds_for_range@ == "AXBoundsForRange"@
    &&& names.placeholder@ == "AXPlaceholderValue"@
    &&& names.title_ui_element@ == "AXTitleUIElement"@
    &&& names.manual_accessibility@ == "AXManualAccessibility"@
}

impl Names {
    pub fn new() -> (names: Self)
        ensures
            standard(names),
    {
        Self {
            role: "AXRole",
            subrole: "AXSubrole",
            role_description: "AXRoleDescription",
            title: "AXTitle",
            description: "AXDescription",
            help: "AXHelp",
            identifier: "AXIdentifier",
            children: "AXChildren",
            parent: "AXParent",
            windows: "AXWindows",
            main_window: "AXMainWindow",
            focused_window: "AXFocusedWindow",
            focused_ui_element: "AXFocusedUIElement",
            menu_bar: "AXMenuBar",
            frame: "AXFrame",
            position: "AXPosition",
            size: "AXSize",
            value: "AXValue",
            enabled: "AXEnabled",
            focused: "AXFocused",
            selected: "AXSelected",
            expanded: "AXExpanded",
            main: "AXMain",
            minimized: "AXMinimized",
            hidden: "AXHidden",
            selected_text_range: "AXSelectedTextRange",
            bounds_for_range: "AXBoundsForRange",
            placeholder: "AXPlaceholderValue",
            title_ui_element: "AXTitleUIElement",
            manual_accessibility: "AXManualAccessibility",
        }
    }

    /// Every field by name, with its attribute.
    pub fn entries(&self) -> (entries: Vec<(&'static str, &'static str)>)
        ensures
            entries@.len() == table().len(),
            forall|i: int|
                0 <= i < entries@.len() ==> (#[trigger] entries@[i]).0@ == table()[i].0,
            entries@[0].1 == self.role,
            entries@[1].1 == self.subrole,
            entries@[2].1 == self.role_description,
            entries@[3].1 == self.title,
            entries@[4].1 == self.description,
            entries@[5].1 == self.help,
            entries@[6].1 == self.identifier,
            entries@[7].1 == self.children,
            entries@[8].1 == self.parent,
            entries@[9].1 == self.windows,
            entries@[10].1 == self.main_window,
            entries@[11].1 == self.focused_window,
            entries@[12].1 == self.focused_ui_element,
            entries@[13].1 == self.menu_bar,
            entries@[14].1 == self.frame,
            entries@[15].1 == self.position,
            entries@[16].1 == self.size,
            entries@[17].1 == self.value,
            entries@[18].1 == self.enabled,
            entries@[19].1 == self.focused,
            entries@[20].1 == self.selected,
            entries@[21].1 == self.expanded,
            entries@[22].1 == self.main,
            entries@[23].1 == self.minimized,
            entries@[24].1 == self.hidden,
            entries@[25].1 == self.selected_text_range,
            entries@[26].1 == self.bounds_for_range,
            entries@[27].1 == self.placeholder,
            entries@[28].1 == self.title_ui_element,
            entries@[29].1 == self.manual_accessibility,
    {
        let mut entries: Vec<(&'static str, &'static str)> = Vec::new();
        entries.push(("role", self.role));
        entries.push(("subrole", self.subrole));
        entries.push(("role_description", self.role_description));
        entries.push(("title", self.title));
        entries.push(("description", self.description));
        entries.push(("help", self.help));
        entries.push(("identifier", self.identifier));
        entries.push(("children", self.children));
        entries.push(("parent", self.parent));
        entries.push(("windows", self.windows));
        entries.push(("main_window", self.main_window));
        entries.push(("focused_window", self.focused_window));
        entries.push(("focused_ui_element", self.focused_ui_element));
        entries.push(("menu_bar", self.menu_bar));
        entries.push(("frame", self.frame));
        entries.push(("position", self.position));
        entries.push(("size", self.size));
        entries.push(("value", self.value));
        entries.push(("enabled", self.enabled));
        entries.push(("focused", self.focused));
        entries.push(("selected", self.selected));
        entries.push(("expanded", self.expanded));
        entries.push(("main", self.main));
        entries.push(("minimized", self.minimized));
        entries.push(("hidden", self.hidden));
        entries.push(("selected_text_range", self.selected_text_range));
        entries.push(("bounds_for_range", self.bounds_for_range));
        entries.push(("placeholder", self.placeholder));
        entries.push(("title_ui_element", self.title_ui_element));
        entries.push(("manual_accessibility", self.manual_accessibility));
        entries
    }
}

/// Whether a text is the name of an attribute: it begins with `AX`, holds no
/// blank, and is not the identifier of a constant that holds one.
pub open spec fn attribute_name(name: Seq<char>) -> bool {
    &&& name.len() > 2
    &&& name[0] == 'A'
    &&& name[1] == 'X'
    &&& !name.contains(' ')
    &&& !"Attribute"@.is_suffix_of(name)
}

/// Every name is that of an attribute. A name that is not would read nothing from
/// any application, without an error.
pub proof fn law_every_name_is_an_attribute_name(i: int)
    requires
        0 <= i < table().len(),
    ensures
        attribute_name(table()[i].1),
{
    reveal_strlit("Attribute");
    reveal_strlit("AXRole");
    reveal_strlit("AXSubrole");
    reveal_strlit("AXRoleDescription");
    reveal_strlit("AXTitle");
    reveal_strlit("AXDescription");
    reveal_strlit("AXHelp");
    reveal_strlit("AXIdentifier");
    reveal_strlit("AXChildren");
    reveal_strlit("AXParent");
    reveal_strlit("AXWindows");
    reveal_strlit("AXMainWindow");
    reveal_strlit("AXFocusedWindow");
    reveal_strlit("AXFocusedUIElement");
    reveal_strlit("AXMenuBar");
    reveal_strlit("AXFrame");
    reveal_strlit("AXPosition");
    reveal_strlit("AXSize");
    reveal_strlit("AXValue");
    reveal_strlit("AXEnabled");
    reveal_strlit("AXFocused");
    reveal_strlit("AXSelected");
    reveal_strlit("AXExpanded");
    reveal_strlit("AXMain");
    reveal_strlit("AXMinimized");
    reveal_strlit("AXHidden");
    reveal_strlit("AXSelectedTextRange");
    reveal_strlit("AXBoundsForRange");
    reveal_strlit("AXPlaceholderValue");
    reveal_strlit("AXTitleUIElement");
    reveal_strlit("AXManualAccessibility");
    let name = table()[i].1;
    let last = name.len() - 1;
    assert(name[last] != 'e' || name[last - 1] != 't' || name[last - 2] != 'u');
    assert(!"Attribute"@.is_suffix_of(name)) by {
        if "Attribute"@.is_suffix_of(name) {
            let tail = name.subrange(name.len() - 9, name.len() as int);
            assert(tail[8] == 'e' && tail[7] == 't' && tail[6] == 'u');
        }
    }
}

impl Default for Names {
    fn default() -> (names: Self)
        ensures
            standard(names),
    {
        Self::new()
    }
}

} // verus!
