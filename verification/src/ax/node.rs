//! One element flattened into what matters of it, and the node it becomes.
//!
//! Every property of a node is written in one place, so that a node that is read
//! again and has not changed is the same node.

use crate::ax::attr::as_bool;
use crate::ax::attr::as_f64;
use crate::ax::attr::as_string;
use crate::ax::attr::flag_in;
use crate::ax::attr::number_in;
use crate::ax::attr::text_in;
use crate::ax::attr::AxValue;
use crate::ax::element::ElementKey;
use crate::ax::role;
use crate::ax::role::mapped_role;
use crate::ax::role::refined_role;
use crate::number::lemma_small_numbers;
use crate::number::unit;
use crate::number::whole_part_of;
use crate::number::Float64;
use crate::number::WholePart;
use crate::strings::contains;
use crate::strings::same;
use crate::strings::views;
use crate::tree::bare_node;
use crate::tree::text_view;
use crate::tree::Actions;
use crate::tree::Node;
use crate::tree::NodeView;
use crate::tree::Properties;
use crate::tree::Role;
use crate::tree::Toggled;
use vstd::prelude::*;

verus! {

// ---------------------------------------------------------------- elements

/// The states that matter of an element. An `Option` is `None` when the element
/// has no such concept at all, as opposed to having it off.
#[derive(Debug, Clone, Copy, PartialEq, Eq, Structural)]
pub struct NodeStates {
    /// `None` when the element does not report it; only an explicit `false`
    /// disables.
    pub enabled: Option<bool>,
    /// Whether focus can be placed here.
    pub focusable: bool,
    pub focused: bool,
    pub selected: Option<bool>,
    /// Whether the value can be written.
    pub value_settable: bool,
}

impl Default for NodeStates {
    fn default() -> (states: Self)
        ensures
            states == (NodeStates {
                enabled: None,
                focusable: false,
                focused: false,
                selected: None,
                value_settable: false,
            }),
    {
        NodeStates {
            enabled: None,
            focusable: false,
            focused: false,
            selected: None,
            value_settable: false,
        }
    }
}

/// One element, flattened.
#[derive(Debug, Clone, PartialEq)]
pub struct AxNode {
    pub key: ElementKey,
    pub role: String,
    pub subrole: Option<String>,
    /// Toolkits disagree on whether the title or the description is the name.
    pub title: String,
    pub description: String,
    pub value: Option<AxValue>,
    pub states: NodeStates,
    /// The names of the actions the element reports.
    pub actions: Vec<String>,
    pub children: Vec<ElementKey>,
    /// The selected range in UTF-16 code units, for elements that carry text.
    pub selected_range: Option<(usize, usize)>,
    /// A name recovered from the element's own contents.
    pub name_from_contents: Option<String>,
    /// For each character of the text, whether it was wrapped onto a new line;
    /// empty where the geometry is not known.
    pub wraps: Vec<bool>,
}

/// An element's name: its title, or else its description, or else what was
/// recovered from its contents.
pub open spec fn name_of(node: AxNode) -> Seq<char> {
    if node.title@.len() > 0 {
        node.title@
    } else if node.description@.len() > 0 {
        node.description@
    } else {
        match node.name_from_contents {
            Some(name) => name@,
            None => Seq::empty(),
        }
    }
}

/// The role an element maps to.
pub open spec fn role_of(node: AxNode) -> Role {
    refined_role(mapped_role(node.role@, text_view(node.subrole)), name_of(node).len() > 0)
}

impl AxNode {
    /// The element's name; see [`name_of`].
    pub fn name(&self) -> (name: &str)
        ensures
            name@ == name_of(*self),
    {
        if self.title.as_str().unicode_len() > 0 {
            return self.title.as_str();
        }
        if self.description.as_str().unicode_len() > 0 {
            return self.description.as_str();
        }
        match &self.name_from_contents {
            Some(name) => name.as_str(),
            None => {
                proof {
                    reveal_strlit("");
                    assert(""@ =~= Seq::<char>::empty());
                }
                ""
            },
        }
    }

    /// The role the element maps to, subrole included.
    pub fn accesskit_role(&self) -> (mapped: Role)
        ensures
            mapped == role_of(*self),
    {
        let subrole: Option<&str> = match &self.subrole {
            Some(subrole) => Some(subrole.as_str()),
            None => None,
        };
        role::refine(role::map(self.role.as_str(), subrole), self.name().unicode_len() > 0)
    }
}

/// The roles of things that are selected, and whose label is their content: a
/// nameless one takes its name from the text inside it. A container legitimately
/// has no name of its own.
pub open spec fn named_by_contents(role: Role) -> bool {
    role == Role::TreeItem || role == Role::ListItem || role == Role::ListBoxOption || role
        == Role::MenuItem || role == Role::Row || role == Role::Cell || role == Role::Tab || role
        == Role::Button || role == Role::Link
}

pub fn takes_name_from_contents(role: Role) -> (takes: bool)
    ensures
        takes == named_by_contents(role),
{
    matches!(
        role,
        Role::TreeItem
            | Role::ListItem
            | Role::ListBoxOption
            | Role::MenuItem
            | Role::Row
            | Role::Cell
            | Role::Tab
            | Role::Button
            | Role::Link
    )
}

/// How deep to look for the text that names an element.
pub const NAME_SEARCH_DEPTH: usize = 2;

/// The roles whose text becomes text runs. Deliberately few: giving every label a
/// caret would report one at the start of every static text.
pub open spec fn carries_text(role: Role) -> bool {
    role == Role::TextInput || role == Role::MultilineTextInput || role == Role::SearchInput || role
        == Role::PasswordInput || role == Role::Document || role == Role::Terminal
}

pub fn has_text_runs(role: Role) -> (carries: bool)
    ensures
        carries == carries_text(role),
{
    matches!(
        role,
        Role::TextInput
            | Role::MultilineTextInput
            | Role::SearchInput
            | Role::PasswordInput
            | Role::Document
            | Role::Terminal
    )
}

// ---------------------------------------------------------------- reading

/// What was read of one element. `values` are the answers to one batch: role,
/// subrole, title, description, value, frame, enabled, focused, selected; an
/// answer that is missing counts as none.
pub struct ElementReads {
    pub values: Vec<Option<AxValue>>,
    pub focusable: Option<bool>,
    pub value_settable: Option<bool>,
    pub actions: Option<Vec<String>>,
    pub children: Option<Vec<ElementKey>>,
}

pub const I_ROLE: usize = 0;

pub const I_SUBROLE: usize = 1;

pub const I_TITLE: usize = 2;

pub const I_DESCRIPTION: usize = 3;

pub const I_VALUE: usize = 4;

pub const I_FRAME: usize = 5;

pub const I_ENABLED: usize = 6;

pub const I_FOCUSED: usize = 7;

pub const I_SELECTED: usize = 8;

/// One answer of a batch.
pub open spec fn answer(values: Seq<Option<AxValue>>, index: usize) -> Option<AxValue> {
    if index < values.len() {
        values[index as int]
    } else {
        None
    }
}

/// The text of one answer of a batch, if it is one.
pub open spec fn answered_text(values: Seq<Option<AxValue>>, index: usize) -> Seq<char> {
    match text_in(answer(values, index)) {
        Some(text) => text,
        None => Seq::empty(),
    }
}

fn text_answer(values: &Vec<Option<AxValue>>, index: usize) -> (text: String)
    ensures
        text@ == answered_text(values@, index),
{
    if index < values.len() {
        match as_string(&values[index]) {
            Some(text) => text,
            None => String::new(),
        }
    } else {
        String::new()
    }
}

fn flag_answer(values: &Vec<Option<AxValue>>, index: usize) -> (flag: Option<bool>)
    ensures
        flag == flag_in(answer(values@, index)),
{
    if index < values.len() {
        as_bool(&values[index])
    } else {
        None
    }
}

fn copy_value(value: &Option<AxValue>) -> (copy: Option<AxValue>)
    ensures
        same_value(copy, *value),
{
    match value {
        Some(AxValue::Text(text)) => Some(AxValue::Text(text.clone())),
        Some(AxValue::Number(number)) => Some(AxValue::Number(*number)),
        Some(AxValue::Flag(flag)) => Some(AxValue::Flag(*flag)),
        Some(AxValue::Other) => Some(AxValue::Other),
        None => None,
    }
}

/// Whether two values hold the same.
pub open spec fn same_value(a: Option<AxValue>, b: Option<AxValue>) -> bool {
    match (a, b) {
        (Some(AxValue::Text(x)), Some(AxValue::Text(y))) => x@ == y@,
        (Some(AxValue::Number(x)), Some(AxValue::Number(y))) => x == y,
        (Some(AxValue::Flag(x)), Some(AxValue::Flag(y))) => x == y,
        (Some(AxValue::Other), Some(AxValue::Other)) => true,
        (None, None) => true,
        _ => false,
    }
}

/// The element that was read. What could not be read is as if it were absent. The
/// name recovered from contents, the selection and the wrapped lines are read
/// afterwards, where they are wanted.
pub fn flatten(key: ElementKey, reads: ElementReads) -> (node: AxNode)
    ensures
        node.key == key,
        node.role@ == answered_text(reads.values@, I_ROLE),
        text_view(node.subrole) == (if answered_text(reads.values@, I_SUBROLE).len() > 0 {
            Some(answered_text(reads.values@, I_SUBROLE))
        } else {
            None
        }),
        node.title@ == answered_text(reads.values@, I_TITLE),
        node.description@ == answered_text(reads.values@, I_DESCRIPTION),
        same_value(node.value, answer(reads.values@, I_VALUE)),
        node.states == (NodeStates {
            enabled: flag_in(answer(reads.values@, I_ENABLED)),
            focusable: reads.focusable == Some(true),
            focused: flag_in(answer(reads.values@, I_FOCUSED)) == Some(true),
            selected: flag_in(answer(reads.values@, I_SELECTED)),
            value_settable: reads.value_settable == Some(true),
        }),
        match reads.actions {
            Some(actions) => node.actions == actions,
            None => node.actions@.len() == 0,
        },
        match reads.children {
            Some(children) => node.children == children,
            None => node.children@.len() == 0,
        },
        node.selected_range is None,
        node.name_from_contents is None,
        node.wraps@.len() == 0,
{
    let values: &Vec<Option<AxValue>> = &reads.values;
    let subrole: String = text_answer(values, I_SUBROLE);
    let subrole: Option<String> = if subrole.as_str().unicode_len() > 0 {
        Some(subrole)
    } else {
        None
    };
    let value: Option<AxValue> = if I_VALUE < values.len() {
        copy_value(&values[I_VALUE])
    } else {
        None
    };
    let focused: bool = match flag_answer(values, I_FOCUSED) {
        Some(focused) => focused,
        None => false,
    };
    let states = NodeStates {
        enabled: flag_answer(values, I_ENABLED),
        focusable: matches!(reads.focusable, Some(true)),
        focused,
        selected: flag_answer(values, I_SELECTED),
        value_settable: matches!(reads.value_settable, Some(true)),
    };
    let role: String = text_answer(values, I_ROLE);
    let title: String = text_answer(values, I_TITLE);
    let description: String = text_answer(values, I_DESCRIPTION);
    let actions: Vec<String> = match reads.actions {
        Some(actions) => actions,
        None => Vec::new(),
    };
    let children: Vec<ElementKey> = match reads.children {
        Some(children) => children,
        None => Vec::new(),
    };
    AxNode {
        key,
        role,
        subrole,
        title,
        description,
        value,
        states,
        actions,
        children,
        selected_range: None,
        name_from_contents: None,
        wraps: Vec::new(),
    }
}

impl AxNode {
    /// Whether the name is to be recovered from the element's contents. This is
    /// done when the element is read, so that reading it again gives the same
    /// name as the walk did.
    pub fn wants_name_from_contents(&self) -> (wants: bool)
        ensures
            wants == (self.title@.len() == 0 && self.description@.len() == 0 && named_by_contents(
                role_of(*self),
            )),
    {
        self.title.as_str().unicode_len() == 0 && self.description.as_str().unicode_len() == 0
            && takes_name_from_contents(self.accesskit_role())
    }

    /// Whether the selection is to be read: only elements that carry text pay for
    /// it.
    pub fn wants_selection(&self) -> (wants: bool)
        ensures
            wants == carries_text(role_of(*self)),
    {
        has_text_runs(self.accesskit_role())
    }
}

// ---------------------------------------------------------------- names from contents

/// The text of a static text, from its role, value and title.
pub open spec fn static_text_of(values: Seq<Option<AxValue>>) -> Option<Seq<char>> {
    if answered_text(values, 0) != "AXStaticText"@ {
        None
    } else if answered_text(values, 1).len() > 0 {
        Some(answered_text(values, 1))
    } else if answered_text(values, 2).len() > 0 {
        Some(answered_text(values, 2))
    } else {
        None
    }
}

/// The text of a static text; see [`static_text_of`].
pub fn static_text(values: &Vec<Option<AxValue>>) -> (text: Option<String>)
    ensures
        text_view(text) == static_text_of(values@),
{
    let role: String = text_answer(values, 0);
    if !same(role.as_str(), "AXStaticText") {
        return None;
    }
    let text: String = text_answer(values, 1);
    if text.as_str().unicode_len() > 0 {
        return Some(text);
    }
    let text: String = text_answer(values, 2);
    if text.as_str().unicode_len() > 0 {
        return Some(text);
    }
    None
}

/// Whether reading elements in turn gave a first text: the elements before it gave
/// none.
pub open spec fn first_text_among<R: Fn(ElementKey) -> Option<String>>(
    read: R,
    elements: Seq<ElementKey>,
    found: Option<String>,
) -> bool
    decreases elements.len(),
{
    if elements.len() == 0 {
        found is None
    } else {
        ||| found is Some && read.ensures((elements[0],), found)
        ||| read.ensures((elements[0],), None) && first_text_among(
            read,
            elements.drop_first(),
            found,
        )
    }
}

/// Whether a search gave a text: the first among the elements themselves, or else
/// the first found within one of them, in turn.
pub open spec fn searched<
    R: Fn(ElementKey) -> Option<String>,
    L: Fn(ElementKey) -> Vec<ElementKey>,
>(read: R, list: L, elements: Seq<ElementKey>, depth: nat, found: Option<String>) -> bool
    decreases depth, 1nat, elements.len(),
{
    if depth == 0 {
        found is None
    } else {
        ||| found is Some && first_text_among(read, elements, found)
        ||| first_text_among(read, elements, None) && searched_within(
            read,
            list,
            elements,
            depth,
            found,
        )
    }
}

/// Whether a search within each of the elements in turn gave a text.
pub open spec fn searched_within<
    R: Fn(ElementKey) -> Option<String>,
    L: Fn(ElementKey) -> Vec<ElementKey>,
>(read: R, list: L, elements: Seq<ElementKey>, depth: nat, found: Option<String>) -> bool
    decreases depth, 0nat, elements.len(),
{
    if depth == 0 || elements.len() == 0 {
        found is None
    } else {
        exists|inner: Vec<ElementKey>|
            {
                &&& #[trigger] list.ensures((elements[0],), inner)
                &&& {
                    ||| found is Some && searched(
                        read,
                        list,
                        inner@,
                        (depth - 1) as nat,
                        found,
                    )
                    ||| searched(read, list, inner@, (depth - 1) as nat, None) && searched_within(
                        read,
                        list,
                        elements.drop_first(),
                        depth,
                        found,
                    )
                }
            }
    }
}

fn first_text<R: Fn(ElementKey) -> Option<String>>(elements: &[ElementKey], read: &R) -> (found:
    Option<String>)
    requires
        forall|key: ElementKey| read.requires((key,)),
    ensures
        first_text_among(*read, elements@, found),
{
    assert(elements@.skip(0) =~= elements@);
    first_text_from(elements, 0, read)
}

fn first_text_from<R: Fn(ElementKey) -> Option<String>>(
    elements: &[ElementKey],
    from: usize,
    read: &R,
) -> (found: Option<String>)
    requires
        from <= elements@.len(),
        forall|key: ElementKey| read.requires((key,)),
    ensures
        first_text_among(*read, elements@.skip(from as int), found),
    decreases elements@.len() - from,
{
    let ghost rest = elements@.skip(from as int);
    if from >= elements.len() {
        return None;
    }
    assert(rest[0] == elements@[from as int]);
    assert(rest.drop_first() =~= elements@.skip(from + 1));
    let text: Option<String> = read(elements[from]);
    if text.is_some() {
        return text;
    }
    first_text_from(elements, from + 1, read)
}

fn text_within_from<
    R: Fn(ElementKey) -> Option<String>,
    L: Fn(ElementKey) -> Vec<ElementKey>,
>(elements: &[ElementKey], from: usize, read: &R, list: &L, depth: usize) -> (found: Option<String>)
    requires
        from <= elements@.len(),
        depth > 0,
        forall|key: ElementKey| read.requires((key,)),
        forall|key: ElementKey| list.requires((key,)),
    ensures
        searched_within(*read, *list, elements@.skip(from as int), depth as nat, found),
    decreases depth, 0nat, elements@.len() - from,
{
    let ghost rest = elements@.skip(from as int);
    if from >= elements.len() {
        return None;
    }
    assert(rest[0] == elements@[from as int]);
    assert(rest.drop_first() =~= elements@.skip(from + 1));
    let inner: Vec<ElementKey> = list(elements[from]);
    assert(list.ensures((rest[0],), inner));
    let text: Option<String> = text_within(inner.as_slice(), read, list, depth - 1);
    if text.is_some() {
        return text;
    }
    text_within_from(elements, from + 1, read, list, depth)
}

/// The first text found within these elements: one of theirs, or else one within
/// them, `depth` levels deep. `read` gives the text of an element that is a static
/// text (see [`static_text`]), and `list` an element's children. A sibling's text
/// comes before a grandchild's, and nothing is read beyond the first text.
pub fn text_within<
    R: Fn(ElementKey) -> Option<String>,
    L: Fn(ElementKey) -> Vec<ElementKey>,
>(elements: &[ElementKey], read: &R, list: &L, depth: usize) -> (found: Option<String>)
    requires
        forall|key: ElementKey| read.requires((key,)),
        forall|key: ElementKey| list.requires((key,)),
    ensures
        searched(*read, *list, elements@, depth as nat, found),
    decreases depth, 1nat, elements@.len(),
{
    if depth == 0 {
        return None;
    }
    let text: Option<String> = first_text(elements, read);
    if text.is_some() {
        return text;
    }
    assert(elements@.skip(0) =~= elements@);
    text_within_from(elements, 0, read, list, depth)
}

// ---------------------------------------------------------------- nodes

/// The actions that a node declares: exactly what the element can do.
pub open spec fn declared(node: AxNode) -> Actions {
    let names = views(node.actions@);
    Actions {
        click: names.contains("AXPress"@) || names.contains("AXPick"@) || names.contains(
            "AXConfirm"@,
        ),
        focus: node.states.focusable,
        expand: names.contains("AXShowMenu"@),
        collapse: names.contains("AXShowMenu"@),
        increment: names.contains("AXIncrement"@),
        decrement: names.contains("AXDecrement"@),
        set_value: node.states.value_settable,
    }
}

fn declare(node: &AxNode) -> (actions: Actions)
    ensures
        actions == declared(*node),
{
    let names: &[String] = node.actions.as_slice();
    let menu: bool = contains(names, "AXShowMenu");
    Actions {
        click: contains(names, "AXPress") || contains(names, "AXPick") || contains(
            names,
            "AXConfirm",
        ),
        focus: node.states.focusable,
        expand: menu,
        collapse: menu,
        increment: contains(names, "AXIncrement"),
        decrement: contains(names, "AXDecrement"),
        set_value: node.states.value_settable,
    }
}

/// The roles whose value is a text.
pub open spec fn text_valued(role: Role) -> bool {
    role == Role::TextInput || role == Role::MultilineTextInput || role == Role::SearchInput || role
        == Role::PasswordInput || role == Role::DateInput || role == Role::TimeInput
}

/// The roles whose value is on, off or between.
pub open spec fn toggle_valued(role: Role) -> bool {
    role == Role::CheckBox || role == Role::RadioButton || role == Role::Switch
}

/// The roles whose value is a number.
pub open spec fn number_valued(role: Role) -> bool {
    role == Role::Slider || role == Role::SpinButton || role == Role::ProgressIndicator || role
        == Role::Meter || role == Role::ScrollBar
}

/// A text with something in it.
pub open spec fn filled(text: Seq<char>) -> Option<Seq<char>> {
    if text.len() > 0 {
        Some(text)
    } else {
        None
    }
}

/// The text value of a node. A label's text is its value, not a name for something
/// else; a label without a name has it in its value.
pub open spec fn value_of(node: AxNode) -> Option<Seq<char>> {
    let role = role_of(node);
    if role == Role::Label {
        if name_of(node).len() > 0 {
            Some(name_of(node))
        } else {
            match text_in(node.value) {
                Some(text) => filled(text),
                None => None,
            }
        }
    } else if text_valued(role) {
        text_in(node.value)
    } else {
        None
    }
}

/// Whether a node is on, off or between.
pub open spec fn toggled_of(node: AxNode) -> Option<Toggled> {
    if toggle_valued(role_of(node)) {
        match number_in(node.value) {
            Some(number) => Some(
                match whole_part_of(number) {
                    WholePart::Zero => Toggled::False,
                    WholePart::Two => Toggled::Mixed,
                    WholePart::Other => Toggled::True,
                },
            ),
            None => None,
        }
    } else {
        None
    }
}

/// The numeric value of a node.
pub open spec fn numeric_of(node: AxNode) -> Option<Float64> {
    if number_valued(role_of(node)) {
        number_in(node.value)
    } else {
        None
    }
}

/// Everything about a node that comes from its own read, but for its bounds. An
/// element that does not report whether it is enabled is not disabled.
pub open spec fn container_of(node: AxNode) -> NodeView {
    let bare = bare_node(role_of(node));
    let name = name_of(node);
    NodeView {
        props: Properties {
            actions: declared(node),
            toggled: toggled_of(node),
            numeric_value: numeric_of(node),
            selected: node.states.selected,
            disabled: node.states.enabled == Some(false),
            ..bare.props
        },
        label: if role_of(node) == Role::Label {
            None
        } else {
            filled(name)
        },
        value: value_of(node),
        // A description that repeats the name says nothing new.
        description: if node.description@ == name {
            None
        } else {
            filled(node.description@)
        },
        ..bare
    }
}

fn fill(text: &str) -> (result: Option<String>)
    ensures
        text_view(result) == filled(text@),
{
    if text.unicode_len() > 0 {
        Some(text.to_owned())
    } else {
        None
    }
}

fn text_value(node: &AxNode, role: Role) -> (value: Option<String>)
    requires
        role == role_of(*node),
    ensures
        text_view(value) == value_of(*node),
{
    if role == Role::Label {
        let name: Option<String> = fill(node.name());
        if name.is_some() {
            return name;
        }
        return match as_string(&node.value) {
            Some(text) => fill(text.as_str()),
            None => None,
        };
    }
    let text: bool = matches!(
        role,
        Role::TextInput
            | Role::MultilineTextInput
            | Role::SearchInput
            | Role::PasswordInput
            | Role::DateInput
            | Role::TimeInput
    );
    if text {
        as_string(&node.value)
    } else {
        None
    }
}

fn toggle_value(node: &AxNode, role: Role) -> (value: Option<Toggled>)
    requires
        role == role_of(*node),
    ensures
        value == toggled_of(*node),
{
    let toggle: bool = matches!(role, Role::CheckBox | Role::RadioButton | Role::Switch);
    if !toggle {
        return None;
    }
    match as_f64(&node.value) {
        Some(number) => match number.whole_part() {
            WholePart::Zero => Some(Toggled::False),
            WholePart::Two => Some(Toggled::Mixed),
            WholePart::Other => Some(Toggled::True),
        },
        None => None,
    }
}

fn numeric_value(node: &AxNode, role: Role) -> (value: Option<Float64>)
    requires
        role == role_of(*node),
    ensures
        value == numeric_of(*node),
{
    let number: bool = matches!(
        role,
        Role::Slider | Role::SpinButton | Role::ProgressIndicator | Role::Meter | Role::ScrollBar
    );
    if number {
        as_f64(&node.value)
    } else {
        None
    }
}

/// Builds everything about a node that comes from its own read: role, name,
/// description and state. Children and text are the caller's, and so are the
/// bounds, which are measured in fractions of a pixel.
pub fn build_container(node: &AxNode) -> (container: Node)
    ensures
        container@ == container_of(*node),
{
    let role: Role = node.accesskit_role();
    let mut container = Node::new(role);
    let name: &str = node.name();
    container.value = text_value(node, role);
    container.label = if role == Role::Label {
        None
    } else {
        fill(name)
    };
    container.description = if same(node.description.as_str(), name) {
        None
    } else {
        fill(node.description.as_str())
    };
    container.props.toggled = toggle_value(node, role);
    container.props.numeric_value = numeric_value(node, role);
    container.props.selected = node.states.selected;
    container.props.disabled = matches!(node.states.enabled, Some(false));
    container.props.actions = declare(node);
    container
}

/// A description never repeats the name, and no element is disabled for want of
/// an answer.
pub proof fn law_absence_is_not_a_statement(node: AxNode)
    ensures
        container_of(node).description != Some(name_of(node)),
        node.states.enabled is None ==> !container_of(node).props.disabled,
        node.value is None ==> container_of(node).props.toggled is None
            && container_of(node).props.numeric_value is None,
{
}

/// What a node says is what the element was read to say. Whether it is selected is
/// passed on as it is, and left unsaid where the element leaves it unsaid. It is
/// disabled only if the element says that it is not enabled.
pub proof fn law_a_node_is_selected_as_its_element_is(node: AxNode)
    ensures
        container_of(node).props.selected == node.states.selected,
        container_of(node).props.disabled <==> node.states.enabled == Some(false),
        container_of(node).props.role == role_of(node),
{
}

/// A node declares an action only if the element offers it, and every one that it
/// offers: it is clicked by any of three actions, opened and closed by its menu, stepped
/// by its steppers, focused if it takes focus and set if its value can be set.
pub proof fn law_a_node_declares_what_its_element_offers(node: AxNode, offered: int)
    requires
        0 <= offered < node.actions@.len(),
    ensures
        ({
            let actions = container_of(node).props.actions;
            let name = node.actions@[offered]@;
            &&& actions.focus == node.states.focusable
            &&& actions.set_value == node.states.value_settable
            &&& name == "AXPress"@ || name == "AXPick"@ || name == "AXConfirm"@ ==> actions.click
            &&& name == "AXShowMenu"@ ==> actions.expand && actions.collapse
            &&& name == "AXIncrement"@ ==> actions.increment
            &&& name == "AXDecrement"@ ==> actions.decrement
        }),
{
    assert(views(node.actions@)[offered] == node.actions@[offered]@);
}

/// A node declares no action that its element does not offer.
pub proof fn law_a_node_declares_nothing_else(node: AxNode)
    ensures
        ({
            let actions = container_of(node).props.actions;
            let offers = |name: Seq<char>|
                exists|i: int| 0 <= i < node.actions@.len() && (#[trigger] node.actions@[i])@ == name;
            &&& actions.click ==> offers("AXPress"@) || offers("AXPick"@) || offers("AXConfirm"@)
            &&& actions.expand ==> offers("AXShowMenu"@)
            &&& actions.collapse ==> offers("AXShowMenu"@)
            &&& actions.increment ==> offers("AXIncrement"@)
            &&& actions.decrement ==> offers("AXDecrement"@)
        }),
{
    let actions = container_of(node).props.actions;
    let names = views(node.actions@);
    assert forall|name: Seq<char>| #[trigger] names.contains(name) implies exists|i: int|
        0 <= i < node.actions@.len() && (#[trigger] node.actions@[i])@ == name by {
        let i = names.index_of(name);
        assert(node.actions@[i]@ == name);
    }
}

/// An element's name is its title; without one its description; without either what
/// its contents gave. A node has it as its label, but for a label, whose text it is. Its
/// description is only what its name does not say.
pub proof fn law_a_node_is_named_by_its_element(node: AxNode)
    ensures
        ({
            let built = container_of(node);
            let name = if node.title@.len() > 0 {
                node.title@
            } else if node.description@.len() > 0 {
                node.description@
            } else if node.name_from_contents is Some {
                node.name_from_contents->0@
            } else {
                Seq::empty()
            };
            &&& name_of(node) == name
            &&& role_of(node) != Role::Label && name.len() > 0 ==> built.label == Some(name)
            &&& role_of(node) == Role::Label || name.len() == 0 ==> built.label is None
            &&& role_of(node) == Role::Label && name.len() > 0 ==> built.value == Some(name)
            &&& node.title@.len() > 0 && node.description@.len() > 0 && node.description@
                != node.title@ ==> built.description == Some(node.description@)
            &&& node.title@.len() == 0 || node.description@.len() == 0 || node.description@
                == node.title@ ==> built.description is None
            &&& node.title@.len() == 0 && node.description@.len() == 0
                && node.name_from_contents is None ==> built.label is None
        }),
{
}

/// A text that an element has for its value is the value of a node that is edited as
/// text. No other node has a text value, but for a label without a name.
pub proof fn law_edited_text_is_the_value(node: AxNode)
    ensures
        ({
            let (role, value) = (role_of(node), container_of(node).value);
            let edited = seq![
                Role::TextInput,
                Role::MultilineTextInput,
                Role::SearchInput,
                Role::PasswordInput,
                Role::DateInput,
                Role::TimeInput,
            ].contains(role);
            &&& edited ==> match node.value {
                Some(AxValue::Text(text)) => value == Some(text@),
                _ => value is None,
            }
            &&& role == Role::Label && name_of(node).len() == 0 ==> match node.value {
                Some(AxValue::Text(text)) => if text@.len() > 0 {
                    value == Some(text@)
                } else {
                    value is None
                },
                _ => value is None,
            }
            &&& !edited && role != Role::Label ==> value is None
        }),
{
    let edited = seq![
        Role::TextInput,
        Role::MultilineTextInput,
        Role::SearchInput,
        Role::PasswordInput,
        Role::DateInput,
        Role::TimeInput,
    ];
    assert(edited[0] == Role::TextInput);
    assert(edited[1] == Role::MultilineTextInput);
    assert(edited[2] == Role::SearchInput);
    assert(edited[3] == Role::PasswordInput);
    assert(edited[4] == Role::DateInput);
    assert(edited[5] == Role::TimeInput);
}

/// A number that an element has for its value is the numeric value of a node that is a
/// quantity, and of no other. On a control that is switched it says whether it is off,
/// on or between: nothing, anything but nothing, and two.
pub proof fn law_numbers_are_quantities_or_switches(node: AxNode)
    ensures
        ({
            let (role, props) = (role_of(node), container_of(node).props);
            let quantity = role == Role::Slider || role == Role::SpinButton || role
                == Role::ProgressIndicator || role == Role::Meter || role == Role::ScrollBar;
            let switch = role == Role::CheckBox || role == Role::RadioButton || role
                == Role::Switch;
            match node.value {
                Some(AxValue::Number(number)) => {
                    let (one, value) = (unit(), number.value());
                    &&& quantity <==> props.numeric_value == Some(number)
                    &&& !quantity ==> props.numeric_value is None
                    &&& switch <==> props.toggled is Some
                    &&& switch && !number.nan() ==> {
                        &&& props.toggled == Some(Toggled::False) <==> -one < value < one
                        &&& props.toggled == Some(Toggled::Mixed) <==> one + one <= value < one
                            + one + one
                        &&& props.toggled == Some(Toggled::True) <==> value <= -one || one <= value
                            < one + one || one + one + one <= value
                    }
                },
                _ => props.numeric_value is None && props.toggled is None,
            }
        }),
{
    lemma_small_numbers();
}

/// Nothing is said of a node that was not read: it has no children, relations, bounds or
/// any other property of its own yet.
pub proof fn law_nothing_else_is_said_of_a_node(node: AxNode)
    ensures
        ({
            let built = container_of(node);
            let props = built.props;
            &&& built.placeholder is None
            &&& built.children.len() == 0
            &&& built.labelled_by.len() == 0
            &&& built.controls.len() == 0
            &&& built.described_by.len() == 0
            &&& built.details.len() == 0
            &&& built.character_lengths.len() == 0
            &&& built.word_starts.len() == 0
            &&& built.character_positions is None
            &&& built.character_widths is None
            &&& props.bounds is None
            &&& props.expanded is None
            &&& props.has_popup is None
            &&& props.invalid is None
            &&& props.orientation is None
            &&& props.text_selection is None
            &&& props.text_direction is None
            &&& props.error_message is None
            &&& props.level is None
            &&& !props.hidden
            &&& !props.read_only
            &&& !props.required
            &&& !props.modal
            &&& !props.multiselectable
            &&& !props.busy
            &&& props.min_numeric_value is None
            &&& props.max_numeric_value is None
            &&& props.numeric_value_step is None
        }),
{
}

/// Which roles take a name from their contents, and which carry their text as runs: of
/// the ones that are edited as text all do, but for dates and times.
pub proof fn law_text_runs_are_for_edited_text(role: Role)
    ensures
        carries_text(role) && role != Role::Document && role != Role::Terminal ==> text_valued(
            role,
        ),
        text_valued(role) && role != Role::DateInput && role != Role::TimeInput ==> carries_text(
            role,
        ),
        carries_text(Role::Document),
        carries_text(Role::Terminal),
        carries_text(role) || toggle_valued(role) || number_valued(role) ==> !named_by_contents(role),
        !(text_valued(role) && toggle_valued(role)),
        !(toggle_valued(role) && number_valued(role)),
        !(number_valued(role) && text_valued(role)),
{
}

/// The text of a static text is its value, or without one its title. Nothing else has
/// one.
pub proof fn law_static_text_reads_its_value_first(
    role: Option<AxValue>,
    value: Option<AxValue>,
    title: Option<AxValue>,
)
    ensures
        ({
            let text = static_text_of(seq![role, value, title]);
            let filled_in = |v: Option<AxValue>| v matches Some(AxValue::Text(s)) && s@.len() > 0;
            let is_static = role matches Some(AxValue::Text(s)) && s@ == "AXStaticText"@;
            &&& is_static && filled_in(value) ==> text == text_in(value)
            &&& is_static && !filled_in(value) && filled_in(title) ==> text == text_in(title)
            &&& is_static && !filled_in(value) && !filled_in(title) ==> text is None
            &&& text is Some ==> is_static
        }),
{
    reveal_strlit("AXStaticText");
    assert("AXStaticText"@.len() > 0);
    let all = seq![role, value, title];
    assert(all[0] == role && all[1] == value && all[2] == title);
    assert(answer(all, 0) == role);
    assert(answer(all, 1) == value);
    assert(answer(all, 2) == title);
    assert(seq![role, value, title] == all);
}

proof fn lemma_first_text<R: Fn(ElementKey) -> Option<String>>(
    read: R,
    elements: Seq<ElementKey>,
    found: Option<String>,
) -> (j: int)
    requires
        first_text_among(read, elements, found),
    ensures
        found is Some ==> 0 <= j < elements.len() && read.ensures((elements[j],), found),
        found is None ==> j == elements.len(),
        forall|i: int| 0 <= i < j ==> read.ensures((#[trigger] elements[i],), None),
    decreases elements.len(),
{
    if elements.len() == 0 {
        0
    } else if found is Some && read.ensures((elements[0],), found) {
        0
    } else {
        let rest = elements.drop_first();
        let j = lemma_first_text(read, rest, found);
        assert forall|i: int| 0 <= i < j + 1 implies read.ensures(
            (#[trigger] elements[i],),
            None,
        ) by {
            if i > 0 {
                assert(rest[i - 1] == elements[i]);
            }
        }
        j + 1
    }
}

/// A search finds the text of the elements themselves before any text below them, and of
/// the first of them that has one: an element that always reads a text is passed over only
/// for one before it. A search of no depth finds nothing.
pub proof fn law_the_nearest_text_is_found<
    R: Fn(ElementKey) -> Option<String>,
    L: Fn(ElementKey) -> Vec<ElementKey>,
>(
    read: R,
    list: L,
    elements: Seq<ElementKey>,
    depth: nat,
    found: Option<String>,
    k: int,
) -> (j: int)
    requires
        searched(read, list, elements, depth, found),
        0 <= k < elements.len(),
        forall|text: Option<String>| #[trigger]
            read.ensures((elements[k],), text) ==> text is Some,
    ensures
        depth == 0 ==> found is None,
        depth > 0 ==> found is Some && 0 <= j <= k && read.ensures((elements[j],), found),
{
    if depth == 0 {
        0
    } else if found is Some && first_text_among(read, elements, found) {
        let j = lemma_first_text(read, elements, found);
        if k < j {
            assert(read.ensures((elements[k],), None::<String>));
        }
        j
    } else {
        let j = lemma_first_text(read, elements, None);
        assert(read.ensures((elements[k],), None::<String>));
        0
    }
}

/// Where no element reads a text, a search goes on within the first of them, and within
/// the second only if that finds nothing.
pub proof fn law_a_search_goes_down_in_turn<
    R: Fn(ElementKey) -> Option<String>,
    L: Fn(ElementKey) -> Vec<ElementKey>,
>(read: R, list: L, elements: Seq<ElementKey>, depth: nat, found: Option<String>) -> (inner: Vec<
    ElementKey,
>)
    requires
        searched(read, list, elements, depth, found),
        depth > 0,
        elements.len() > 0,
        forall|i: int, text: Option<String>|
            0 <= i < elements.len() && #[trigger] read.ensures((elements[i],), text)
                ==> text is None,
    ensures
        list.ensures((elements[0],), inner),
        searched(read, list, inner@, (depth - 1) as nat, found) || (searched(
            read,
            list,
            inner@,
            (depth - 1) as nat,
            None,
        ) && searched_within(read, list, elements.drop_first(), depth, found)),
{
    if found is Some && first_text_among(read, elements, found) {
        let j = lemma_first_text(read, elements, found);
        assert(read.ensures((elements[j],), found));
    }
    assert(searched_within(read, list, elements, depth, found));
    choose|inner: Vec<ElementKey>|
        {
            &&& #[trigger] list.ensures((elements[0],), inner)
            &&& {
                ||| found is Some && searched(read, list, inner@, (depth - 1) as nat, found)
                ||| searched(read, list, inner@, (depth - 1) as nat, None) && searched_within(
                    read,
                    list,
                    elements.drop_first(),
                    depth,
                    found,
                )
            }
        }
}

/// What was read of an element is what its node holds: each answer in its place, and
/// nothing that was not read. What was not answered is not made up, and only a clear yes
/// makes an element focusable, focused or settable.
pub proof fn law_a_node_holds_what_was_read(key: ElementKey, reads: ElementReads, node: AxNode)
    requires
        call_ensures(flatten, (key, reads), node),
    ensures
        ({
            let says = |i: int, text: Seq<char>|
                i < reads.values@.len() && (reads.values@[i] matches Some(AxValue::Text(t)) && t@
                    == text);
            let silent = |i: int|
                !(i < reads.values@.len() && (reads.values@[i] matches Some(AxValue::Text(t))));
            let flag = |i: int, set: bool|
                i < reads.values@.len() && reads.values@[i] == Some(AxValue::Flag(set));
            &&& node.key == key
            &&& says(0, node.role@) || silent(0) && node.role@.len() == 0
            &&& says(2, node.title@) || silent(2) && node.title@.len() == 0
            &&& says(3, node.description@) || silent(3) && node.description@.len() == 0
            &&& node.subrole matches Some(subrole) ==> says(1, subrole@) && subrole@.len() > 0
            &&& reads.values@.len() > 4 ==> same_value(node.value, reads.values@[4])
            &&& reads.values@.len() <= 4 ==> node.value is None
            &&& flag(6, false) ==> node.states.enabled == Some(false)
            &&& flag(6, true) ==> node.states.enabled == Some(true)
            &&& flag(7, true) ==> node.states.focused
            &&& flag(7, false) || reads.values@.len() <= 7 ==> !node.states.focused
            &&& flag(8, true) ==> node.states.selected == Some(true)
            &&& flag(8, false) ==> node.states.selected == Some(false)
            &&& reads.values@.len() <= 8 ==> node.states.selected is None
            &&& node.states.focusable <==> reads.focusable == Some(true)
            &&& node.states.value_settable <==> reads.value_settable == Some(true)
            &&& reads.actions is Some ==> node.actions == reads.actions->0
            &&& reads.children is Some ==> node.children == reads.children->0
            &&& reads.actions is None ==> node.actions@.len() == 0
            &&& reads.children is None ==> node.children@.len() == 0
        }),
{
}

} // verus!
