//! Which signals warrant reading one node again, decided before any bus call.

use crate::atspi::node::distilled;
use crate::atspi::node::no_states;
use crate::atspi::vocabulary::State;
use crate::strings::same;
use vstd::prelude::*;

verus! {

/// Whether a state on its own shows in what is distilled of a node's states.
pub open spec fn shows(state: State) -> bool {
    distilled(Set::<State>::empty().insert(state)) != no_states()
}

/// Whether a state change alters what is distilled of a node, and so warrants
/// reading the node again.
pub fn state_is_mirrored(state: State) -> (mirrored: bool)
    ensures
        mirrored == shows(state),
{
    let ghost set = Set::<State>::empty().insert(state);
    let mirrored = matches!(
        state,
        State::Focusable
            | State::Focused
            | State::Expandable
            | State::Expanded
            | State::Collapsed
            | State::Selectable
            | State::Selected
            | State::Checkable
            | State::Checked
            | State::Pressed
            | State::Indeterminate
            | State::HasPopup
            | State::Sensitive
            | State::Enabled
            | State::ReadOnly
            | State::Required
            | State::InvalidEntry
            | State::Modal
            | State::Multiselectable
            | State::Busy
            | State::Horizontal
            | State::Vertical
    );
    assert(forall|other: State| #[trigger] set.contains(other) <==> other == state);
    mirrored
}

/// Whether a property is one of those mirrored.
pub open spec fn mirrored_property(property: Seq<char>) -> bool {
    property == "accessible-name"@ || property == "accessible-description"@ || property
        == "accessible-role"@ || property == "accessible-value"@
}

/// Whether a property change names a property that is mirrored, by the name the
/// signal carries.
pub fn property_is_mirrored(property: &str) -> (mirrored: bool)
    ensures
        mirrored == mirrored_property(property@),
{
    same(property, "accessible-name") || same(property, "accessible-description") || same(
        property,
        "accessible-role",
    ) || same(property, "accessible-value")
}

/// Of an object's properties its name, its description, its role and its value are
/// mirrored, and no other.
pub proof fn law_what_is_mirrored_of_an_object(property: Seq<char>)
    ensures
        mirrored_property(property) <==> seq![
            "accessible-description"@,
            "accessible-name"@,
            "accessible-role"@,
            "accessible-value"@,
        ].contains(property),
{
    let all = seq![
        "accessible-description"@,
        "accessible-name"@,
        "accessible-role"@,
        "accessible-value"@,
    ];
    assert(all[0] == "accessible-description"@ && all[1] == "accessible-name"@ && all[2]
        == "accessible-role"@ && all[3] == "accessible-value"@);
}

} // verus!
