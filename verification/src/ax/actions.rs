//! The names of the actions that are asked of elements.

use vstd::prelude::*;

verus! {

pub const PRESS: &'static str = "AXPress";

pub const INCREMENT: &'static str = "AXIncrement";

pub const DECREMENT: &'static str = "AXDecrement";

pub const SHOW_MENU: &'static str = "AXShowMenu";

pub const PICK: &'static str = "AXPick";

pub const CONFIRM: &'static str = "AXConfirm";

pub const CANCEL: &'static str = "AXCancel";

pub const RAISE: &'static str = "AXRaise";

} // verus!
