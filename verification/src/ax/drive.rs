//! Action planning: from what is known about an action's target to an ordered
//! list of calls, to be tried in turn until one succeeds.
//!
//! An element says which actions it has and which of its attributes can be
//! written, so a call that cannot work is never planned, and order matters only
//! where more than one route applies.

use crate::ax::actions;
use crate::number::Float64;
use crate::strings::contains;
use crate::strings::views;
use crate::tree::Action;
use crate::tree::ActionData;
use crate::tree::Role;
use vstd::prelude::*;

verus! {

/// Attributes that may be written.
#[derive(Debug, Clone, Copy, PartialEq, Eq, Hash, Structural)]
pub enum Settable {
    Value,
    Focused,
    Selected,
    SelectedTextRange,
}

/// One call that can be attempted.
#[derive(Debug, Clone, PartialEq)]
pub enum AxCall {
    /// Performing the action of this name.
    Perform(&'static str),
    /// Writing a text as the value.
    SetStringValue(String),
    /// Writing a number as the value.
    SetNumberValue(Float64),
    /// Making the element focused.
    Focus,
    /// Writing whether the element is selected.
    SetSelected(bool),
}

/// The content of a call.
pub enum CallView {
    Perform(Seq<char>),
    SetStringValue(Seq<char>),
    SetNumberValue(Float64),
    Focus,
    SetSelected(bool),
}

impl View for AxCall {
    type V = CallView;

    open spec fn view(&self) -> CallView {
        match self {
            AxCall::Perform(name) => CallView::Perform(name@),
            AxCall::SetStringValue(text) => CallView::SetStringValue(text@),
            AxCall::SetNumberValue(number) => CallView::SetNumberValue(*number),
            AxCall::Focus => CallView::Focus,
            AxCall::SetSelected(selected) => CallView::SetSelected(*selected),
        }
    }
}

/// The contents of a plan.
pub open spec fn plan_view(plan: Seq<AxCall>) -> Seq<CallView> {
    plan.map_values(|c: AxCall| c@)
}

/// An element's numeric value, and that value moved one hundredth up and down: the
/// interface has no step size, so a step is a choice.
#[derive(Debug, Clone, Copy, PartialEq, Eq, Structural)]
pub struct SteppedValue {
    pub current: Float64,
    pub up: Float64,
    pub down: Float64,
}

/// Everything that may matter about an action's target, read at the time it is
/// performed.
pub struct ActionContext {
    pub role: Role,
    /// The names of the element's actions.
    pub actions: Vec<String>,
    /// The attributes that can be written.
    pub settable: Vec<Settable>,
    /// The element's numeric value, if it has one.
    pub value: Option<SteppedValue>,
}

impl ActionContext {
    /// Whether the element has an action.
    pub open spec fn offers(self, action: Seq<char>) -> bool {
        views(self.actions@).contains(action)
    }

    /// Whether an attribute can be written.
    pub open spec fn writable(self, what: Settable) -> bool {
        self.settable@.contains(what)
    }

    fn can_perform(&self, action: &str) -> (offered: bool)
        ensures
            offered == self.offers(action@),
    {
        contains(self.actions.as_slice(), action)
    }

    fn can_set(&self, what: Settable) -> (writable: bool)
        ensures
            writable == self.writable(what),
    {
        for i in 0..self.settable.len()
            invariant
                forall|j: int| 0 <= j < i ==> self.settable@[j] != what,
        {
            if self.settable[i] == what {
                assert(self.settable@[i as int] == what);
                return true;
            }
        }
        false
    }
}

/// The roles of what is selected rather than activated.
pub open spec fn option_role(role: Role) -> bool {
    role == Role::ListBoxOption || role == Role::MenuItem || role == Role::MenuListOption || role
        == Role::Tab || role == Role::TreeItem || role == Role::Row || role == Role::Cell || role
        == Role::ListItem
}

/// See [`option_role`].
pub fn is_option_role(role: Role) -> (option: bool)
    ensures
        option == option_role(role),
{
    matches!(
        role,
        Role::ListBoxOption
            | Role::MenuItem
            | Role::MenuListOption
            | Role::Tab
            | Role::TreeItem
            | Role::Row
            | Role::Cell
            | Role::ListItem
    )
}

/// A call, where it can work.
pub open spec fn only_if(possible: bool, call: CallView) -> Seq<CallView> {
    if possible {
        seq![call]
    } else {
        Seq::empty()
    }
}

/// Performing an action, where the element has it.
pub open spec fn performing(ctx: ActionContext, action: Seq<char>) -> Seq<CallView> {
    only_if(ctx.offers(action), CallView::Perform(action))
}

/// A value moved one step.
pub open spec fn moved(value: SteppedValue, up: bool) -> Float64 {
    if up {
        value.up
    } else {
        value.down
    }
}

/// One step: by the element's own action, or else by writing the value moved,
/// where both the value and where it moves to are finite.
pub open spec fn stepping(ctx: ActionContext, up: bool) -> Seq<CallView> {
    let own = if up {
        actions::INCREMENT@
    } else {
        actions::DECREMENT@
    };
    if ctx.offers(own) {
        seq![CallView::Perform(own)]
    } else {
        match ctx.value {
            Some(value) => only_if(
                ctx.writable(Settable::Value) && value.current.finite() && moved(
                    value,
                    up,
                ).finite(),
                CallView::SetNumberValue(moved(value, up)),
            ),
            None => Seq::empty(),
        }
    }
}

/// Writing the value that came with the request.
pub open spec fn writing(ctx: ActionContext, data: Option<&ActionData>) -> Seq<CallView> {
    match data {
        Some(ActionData::Value(text)) => only_if(
            ctx.writable(Settable::Value),
            CallView::SetStringValue(text@),
        ),
        Some(ActionData::NumericValue(number)) => only_if(
            ctx.writable(Settable::Value) && number.finite(),
            CallView::SetNumberValue(*number),
        ),
        _ => Seq::empty(),
    }
}

/// The calls that could carry out an action on a target, most likely to succeed
/// first.
///
/// A click presses; menu items and rows are picked rather than pressed, and an
/// option without any action can still be selected. A window cannot be focused by
/// attribute and is raised. Showing a menu goes before pressing what has one, and
/// an open menu is dismissed by a cancel rather than by showing it again.
pub open spec fn planned(
    ctx: ActionContext,
    action: Action,
    data: Option<&ActionData>,
) -> Seq<CallView> {
    match action {
        Action::Click => performing(ctx, actions::PRESS@) + performing(ctx, actions::PICK@)
            + only_if(
            option_role(ctx.role) && ctx.writable(Settable::Selected),
            CallView::SetSelected(true),
        ) + performing(ctx, actions::CONFIRM@),
        Action::Focus => only_if(ctx.writable(Settable::Focused), CallView::Focus) + only_if(
            ctx.role == Role::Window && ctx.offers(actions::RAISE@),
            CallView::Perform(actions::RAISE@),
        ),
        Action::Expand => performing(ctx, actions::SHOW_MENU@) + performing(ctx, actions::PRESS@),
        Action::Collapse => performing(ctx, actions::PRESS@) + performing(ctx, actions::CANCEL@),
        Action::Increment => stepping(ctx, true),
        Action::Decrement => stepping(ctx, false),
        Action::SetValue => writing(ctx, data),
        _ => Seq::empty(),
    }
}

/// Adds a call to a plan, where it can work.
fn add_if(plan: &mut Vec<AxCall>, possible: bool, call: AxCall)
    ensures
        plan_view(final(plan)@) == plan_view(old(plan)@) + only_if(possible, call@),
{
    if possible {
        plan.push(call);
    }
    assert(plan_view(plan@) =~= plan_view(old(plan)@) + only_if(possible, call@));
}

/// Adds an action to a plan, where the element has it.
fn add_action(plan: &mut Vec<AxCall>, ctx: &ActionContext, action: &'static str)
    ensures
        plan_view(final(plan)@) == plan_view(old(plan)@) + performing(*ctx, action@),
{
    add_if(plan, ctx.can_perform(action), AxCall::Perform(action));
}

/// See [`stepping`].
fn step(ctx: &ActionContext, up: bool) -> (plan: Vec<AxCall>)
    ensures
        plan_view(plan@) == stepping(*ctx, up),
{
    let own: &'static str = if up {
        actions::INCREMENT
    } else {
        actions::DECREMENT
    };
    let mut plan: Vec<AxCall> = Vec::new();
    if ctx.can_perform(own) {
        plan.push(AxCall::Perform(own));
    } else {
        match ctx.value {
            Some(value) => {
                let moved: Float64 = if up {
                    value.up
                } else {
                    value.down
                };
                let possible: bool = ctx.can_set(Settable::Value) && value.current.is_finite()
                    && moved.is_finite();
                add_if(&mut plan, possible, AxCall::SetNumberValue(moved));
            },
            None => {},
        }
    }
    assert(plan_view(plan@) =~= stepping(*ctx, up));
    plan
}

/// See [`writing`].
fn write_value(ctx: &ActionContext, data: Option<&ActionData>) -> (plan: Vec<AxCall>)
    ensures
        plan_view(plan@) == writing(*ctx, data),
{
    let mut plan: Vec<AxCall> = Vec::new();
    match data {
        Some(ActionData::Value(text)) => {
            let possible: bool = ctx.can_set(Settable::Value);
            add_if(&mut plan, possible, AxCall::SetStringValue(text.clone()));
        },
        Some(ActionData::NumericValue(number)) => {
            let possible: bool = ctx.can_set(Settable::Value) && number.is_finite();
            add_if(&mut plan, possible, AxCall::SetNumberValue(*number));
        },
        _ => {},
    }
    assert(plan_view(plan@) =~= writing(*ctx, data));
    plan
}

/// Plans the calls that could carry out `action` on the target, in order; see
/// [`planned`]. They are to be tried in turn until one succeeds; an empty plan
/// means that the action cannot be expressed on this target at all.
pub fn plan_action(ctx: &ActionContext, action: Action, data: Option<&ActionData>) -> (plan: Vec<
    AxCall,
>)
    ensures
        plan_view(plan@) == planned(*ctx, action, data),
{
    let mut plan: Vec<AxCall> = Vec::new();
    match action {
        Action::Click => {
            add_action(&mut plan, ctx, actions::PRESS);
            add_action(&mut plan, ctx, actions::PICK);
            let selectable: bool = is_option_role(ctx.role) && ctx.can_set(Settable::Selected);
            add_if(&mut plan, selectable, AxCall::SetSelected(true));
            add_action(&mut plan, ctx, actions::CONFIRM);
        },
        Action::Focus => {
            add_if(&mut plan, ctx.can_set(Settable::Focused), AxCall::Focus);
            let raised: bool = ctx.role == Role::Window && ctx.can_perform(actions::RAISE);
            add_if(&mut plan, raised, AxCall::Perform(actions::RAISE));
        },
        Action::Expand => {
            add_action(&mut plan, ctx, actions::SHOW_MENU);
            add_action(&mut plan, ctx, actions::PRESS);
        },
        Action::Collapse => {
            add_action(&mut plan, ctx, actions::PRESS);
            add_action(&mut plan, ctx, actions::CANCEL);
        },
        Action::Increment => {
            return step(ctx, true);
        },
        Action::Decrement => {
            return step(ctx, false);
        },
        Action::SetValue => {
            return write_value(ctx, data);
        },
        _ => {},
    }
    assert(plan_view(plan@) =~= planned(*ctx, action, data));
    plan
}

/// Whether an element can do what a call asks of it, as far as it says.
pub open spec fn possible(ctx: ActionContext, call: CallView) -> bool {
    match call {
        CallView::Perform(action) => ctx.offers(action),
        CallView::SetStringValue(_) => ctx.writable(Settable::Value),
        CallView::SetNumberValue(_) => ctx.writable(Settable::Value),
        CallView::Focus => ctx.writable(Settable::Focused),
        CallView::SetSelected(_) => ctx.writable(Settable::Selected),
    }
}

/// Nothing is planned that the element says it cannot do.
pub proof fn law_nothing_impossible_is_planned(
    ctx: ActionContext,
    action: Action,
    data: Option<&ActionData>,
)
    ensures
        forall|i: int|
            0 <= i < planned(ctx, action, data).len() ==> possible(
                ctx,
                #[trigger] planned(ctx, action, data)[i],
            ),
{
}

/// Whatever the action, its target and its data, every number that is planned to
/// be written is finite.
pub proof fn law_only_finite_numbers_are_written(
    ctx: ActionContext,
    action: Action,
    data: Option<&ActionData>,
)
    ensures
        forall|i: int|
            0 <= i < planned(ctx, action, data).len() ==> (
            #[trigger] planned(ctx, action, data)[i] matches CallView::SetNumberValue(number)
                ==> number.finite()),
{
}

/// What a click could do, and in which order it is tried: it presses, or else picks, or
/// else selects what is selected rather than activated, or else confirms. Each way is
/// tried exactly where the element allows it.
pub proof fn law_a_click_presses_first(ctx: ActionContext, data: Option<&ActionData>, i: int, j: int)
    ensures
        ({
            let plan = planned(ctx, Action::Click, data);
            let turn = |call: CallView|
                match call {
                    CallView::Perform(name) => if name == "AXPress"@ {
                        0int
                    } else if name == "AXPick"@ {
                        1int
                    } else if name == "AXConfirm"@ {
                        3int
                    } else {
                        4int
                    },
                    CallView::SetSelected(true) => 2int,
                    _ => 4int,
                };
            &&& plan.contains(CallView::Perform("AXPress"@)) <==> ctx.offers("AXPress"@)
            &&& plan.contains(CallView::Perform("AXPick"@)) <==> ctx.offers("AXPick"@)
            &&& plan.contains(CallView::Perform("AXConfirm"@)) <==> ctx.offers("AXConfirm"@)
            &&& plan.contains(CallView::SetSelected(true)) <==> ctx.writable(Settable::Selected)
                && option_role(ctx.role)
            &&& 0 <= i < plan.len() ==> turn(plan[i]) < 4
            &&& 0 <= i < j < plan.len() ==> turn(plan[i]) < turn(plan[j])
        }),
{
    let plan = planned(ctx, Action::Click, data);
    lemma_names();
    let (press, pick, select, confirm) = (
        performing(ctx, actions::PRESS@),
        performing(ctx, actions::PICK@),
        only_if(
            option_role(ctx.role) && ctx.writable(Settable::Selected),
            CallView::SetSelected(true),
        ),
        performing(ctx, actions::CONFIRM@),
    );
    assert(plan == press + pick + select + confirm);
    if press.len() > 0 {
        assert(plan[0] == press[0]);
    }
    if pick.len() > 0 {
        assert(plan[press.len() as int] == pick[0]);
    }
    if select.len() > 0 {
        assert(plan[(press.len() + pick.len()) as int] == select[0]);
    }
    if confirm.len() > 0 {
        assert(plan[(press.len() + pick.len() + select.len()) as int] == confirm[0]);
    }
}

/// The names of actions differ from one another.
proof fn lemma_names()
    ensures
        actions::PRESS@ == "AXPress"@,
        actions::PICK@ == "AXPick"@,
        actions::CONFIRM@ == "AXConfirm"@,
        actions::CANCEL@ == "AXCancel"@,
        actions::RAISE@ == "AXRaise"@,
        actions::SHOW_MENU@ == "AXShowMenu"@,
        actions::INCREMENT@ == "AXIncrement"@,
        actions::DECREMENT@ == "AXDecrement"@,
        "AXPress"@.len() == 7,
        "AXPick"@.len() == 6,
        "AXConfirm"@.len() == 9,
        "AXCancel"@.len() == 8,
        "AXShowMenu"@.len() == 10,
{
    reveal_strlit("AXPress");
    reveal_strlit("AXPick");
    reveal_strlit("AXConfirm");
    reveal_strlit("AXCancel");
    reveal_strlit("AXShowMenu");
}

/// Focus is set where it can be; a window that can be raised is raised, after that.
pub proof fn law_focus_is_set_before_a_window_is_raised(
    ctx: ActionContext,
    data: Option<&ActionData>,
)
    ensures
        ({
            let plan = planned(ctx, Action::Focus, data);
            let raised = ctx.role == Role::Window && ctx.offers("AXRaise"@);
            &&& ctx.writable(Settable::Focused) ==> plan.len() > 0 && plan[0] == CallView::Focus
            &&& raised ==> plan.len() > 0 && plan.last() == CallView::Perform("AXRaise"@)
            &&& plan.contains(CallView::Focus) ==> ctx.writable(Settable::Focused)
            &&& plan.contains(CallView::Perform("AXRaise"@)) ==> raised
            &&& plan.len() == (if ctx.writable(Settable::Focused) {
                1int
            } else {
                0
            }) + (if raised {
                1int
            } else {
                0
            })
        }),
{
    lemma_names();
}

/// What opens shows its menu before it is pressed; what closes is pressed before it is
/// cancelled. Each is tried exactly where the element offers it.
pub proof fn law_menus_are_shown_first_and_cancelled_last(
    ctx: ActionContext,
    data: Option<&ActionData>,
)
    ensures
        ({
            let (open, close) = (
                planned(ctx, Action::Expand, data),
                planned(ctx, Action::Collapse, data),
            );
            let (menu, press, cancel) = (
                CallView::Perform("AXShowMenu"@),
                CallView::Perform("AXPress"@),
                CallView::Perform("AXCancel"@),
            );
            &&& open.len() <= 2
            &&& ctx.offers("AXShowMenu"@) ==> open.len() > 0 && open[0] == menu
            &&& ctx.offers("AXPress"@) ==> open.len() > 0 && open.last() == press
            &&& open.contains(menu) ==> ctx.offers("AXShowMenu"@)
            &&& open.contains(press) ==> ctx.offers("AXPress"@)
            &&& forall|i: int| 0 <= i < open.len() ==> #[trigger] open[i] == menu || open[i] == press
            &&& close.len() <= 2
            &&& ctx.offers("AXPress"@) ==> close.len() > 0 && close[0] == press
            &&& ctx.offers("AXCancel"@) ==> close.len() > 0 && close.last() == cancel
            &&& close.contains(press) ==> ctx.offers("AXPress"@)
            &&& close.contains(cancel) ==> ctx.offers("AXCancel"@)
            &&& forall|i: int|
                0 <= i < close.len() ==> #[trigger] close[i] == press || close[i] == cancel
        }),
{
    lemma_names();
}

/// A step is the element's own where it offers one. Otherwise its value is written: the
/// one above it for a step up and the one below it for a step down, where it can be
/// written and neither it nor where it goes is out of bounds. Nothing else is tried.
pub proof fn law_a_step_goes_its_own_way(ctx: ActionContext, data: Option<&ActionData>)
    ensures
        ({
            let (up, down) = (
                planned(ctx, Action::Increment, data),
                planned(ctx, Action::Decrement, data),
            );
            let stepped = ctx.value is Some && ctx.writable(Settable::Value)
                && ctx.value->0.current.finite();
            &&& ctx.offers("AXIncrement"@) ==> up == seq![CallView::Perform("AXIncrement"@)]
            &&& ctx.offers("AXDecrement"@) ==> down == seq![CallView::Perform("AXDecrement"@)]
            &&& !ctx.offers("AXIncrement"@) ==> (if stepped && ctx.value->0.up.finite() {
                up == seq![CallView::SetNumberValue(ctx.value->0.up)]
            } else {
                up.len() == 0
            })
            &&& !ctx.offers("AXDecrement"@) ==> (if stepped && ctx.value->0.down.finite() {
                down == seq![CallView::SetNumberValue(ctx.value->0.down)]
            } else {
                down.len() == 0
            })
        }),
{
    lemma_names();
}

/// A value is written as it came with the request: a text as a text, and a number as a
/// number if it is finite. A request without a value writes nothing, and so does one on
/// an element that takes none.
pub proof fn law_a_value_is_written_as_it_came(ctx: ActionContext, data: Option<&ActionData>)
    ensures
        ({
            let plan = planned(ctx, Action::SetValue, data);
            &&& plan.len() <= 1
            &&& !ctx.writable(Settable::Value) ==> plan.len() == 0
            &&& ctx.writable(Settable::Value) ==> match data {
                Some(ActionData::Value(text)) => plan.len() == 1 && plan[0]
                    == CallView::SetStringValue(text@),
                Some(ActionData::NumericValue(number)) => if number.finite() {
                    plan.len() == 1 && plan[0] == CallView::SetNumberValue(*number)
                } else {
                    plan.len() == 0
                },
                _ => plan.len() == 0,
            }
        }),
{
}

/// Actions that an element has no way to carry out plan nothing.
pub proof fn law_other_actions_plan_nothing(
    ctx: ActionContext,
    action: Action,
    data: Option<&ActionData>,
)
    ensures
        planned(ctx, action, data).len() > 0 ==> action == Action::Click || action == Action::Focus
            || action == Action::Expand || action == Action::Collapse || action == Action::Increment
            || action == Action::Decrement || action == Action::SetValue,
{
}

/// What is selected rather than activated.
pub proof fn law_options_are_selected(role: Role)
    ensures
        option_role(role) <==> seq![
            Role::Cell,
            Role::ListBoxOption,
            Role::ListItem,
            Role::MenuItem,
            Role::MenuListOption,
            Role::Row,
            Role::Tab,
            Role::TreeItem,
        ].contains(role),
{
    let all = seq![
        Role::Cell,
        Role::ListBoxOption,
        Role::ListItem,
        Role::MenuItem,
        Role::MenuListOption,
        Role::Row,
        Role::Tab,
        Role::TreeItem,
    ];
    assert(all[0] == Role::Cell && all[1] == Role::ListBoxOption && all[2] == Role::ListItem
        && all[3] == Role::MenuItem && all[4] == Role::MenuListOption && all[5] == Role::Row
        && all[6] == Role::Tab && all[7] == Role::TreeItem);
}

} // verus!
