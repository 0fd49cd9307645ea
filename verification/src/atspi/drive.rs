//! Action planning: from what is known about an action's target to an ordered
//! list of bus calls, to be tried in turn until one succeeds. Toolkits advertise
//! interfaces whose calls they then decline, leave action names empty, or have
//! no action at the first index, so fallbacks by name and by index matter.

use crate::atspi::node::ValueState;
use crate::atspi::vocabulary::Interface;
use crate::atspi::vocabulary::InterfaceSet;
use crate::atspi::vocabulary::Role;
use crate::number::clamped;
use crate::number::Float64;
use crate::strings::same;
use crate::strings::views;
use crate::tree::Action;
use crate::tree::ActionData;
use vstd::prelude::*;

verus! {

/// What arithmetic on a value gives: a hundredth of its range, and the value
/// moved up or down by its own step or by that hundredth.
#[derive(Debug, Clone, Copy, PartialEq, Eq, Structural)]
pub struct Stepping {
    pub hundredth: Float64,
    pub up_by_step: Float64,
    pub down_by_step: Float64,
    pub up_by_hundredth: Float64,
    pub down_by_hundredth: Float64,
}

/// Everything that may matter about the action's target, read at the time it is
/// performed.
pub struct ActionContext {
    pub role: Role,
    pub interfaces: InterfaceSet,
    /// The names of the target's actions, by index.
    pub actions: Vec<String>,
    pub parent_interfaces: InterfaceSet,
    pub index_in_parent: Option<i32>,
    pub value: Option<(ValueState, Stepping)>,
}

/// One bus call that can be attempted.
#[derive(Debug, Clone, PartialEq, Eq)]
pub enum AtspiCall {
    DoAction(i32),
    GrabFocus,
    SelectChildOfParent(i32),
    SetCurrentValue(Float64),
    SetTextContents(String),
}

/// The content of a call.
pub enum CallView {
    DoAction(i32),
    GrabFocus,
    SelectChildOfParent(i32),
    SetCurrentValue(Float64),
    SetTextContents(Seq<char>),
}

impl View for AtspiCall {
    type V = CallView;

    open spec fn view(&self) -> CallView {
        match self {
            AtspiCall::DoAction(index) => CallView::DoAction(*index),
            AtspiCall::GrabFocus => CallView::GrabFocus,
            AtspiCall::SelectChildOfParent(index) => CallView::SelectChildOfParent(*index),
            AtspiCall::SetCurrentValue(value) => CallView::SetCurrentValue(*value),
            AtspiCall::SetTextContents(text) => CallView::SetTextContents(text@),
        }
    }
}

/// The contents of a plan.
pub open spec fn plan_view(plan: Seq<AtspiCall>) -> Seq<CallView> {
    plan.map_values(|c: AtspiCall| c@)
}

proof fn lemma_plan_concat(a: Seq<AtspiCall>, b: Seq<AtspiCall>)
    ensures
        plan_view(a + b) == plan_view(a) + plan_view(b),
{
    assert(plan_view(a + b) =~= plan_view(a) + plan_view(b));
}

// ---------------------------------------------------------------- options

/// The roles of what is selectable inside a container that implements selection.
pub open spec fn option_role(role: Role) -> bool {
    role == Role::ListItem || role == Role::TreeItem || role == Role::PageTab || role
        == Role::MenuItem || role == Role::CheckMenuItem || role == Role::RadioMenuItem
}

pub fn is_option_role(role: Role) -> (option: bool)
    ensures
        option == option_role(role),
{
    matches!(
        role,
        Role::ListItem
            | Role::TreeItem
            | Role::PageTab
            | Role::MenuItem
            | Role::CheckMenuItem
            | Role::RadioMenuItem
    )
}

/// Selecting the target through its parent: when it is an option in a container
/// that implements selection, and its index is known.
pub open spec fn select_child(ctx: ActionContext) -> Seq<CallView> {
    match ctx.index_in_parent {
        Some(index) if ctx.parent_interfaces@.contains(Interface::Selection) && option_role(
            ctx.role,
        ) => seq![CallView::SelectChildOfParent(index)],
        _ => Seq::empty(),
    }
}

/// See [`select_child`].
fn select_child_step(ctx: &ActionContext) -> (plan: Vec<AtspiCall>)
    ensures
        plan_view(plan@) == select_child(*ctx),
{
    let mut plan: Vec<AtspiCall> = Vec::new();
    if ctx.parent_interfaces.contains(Interface::Selection) && is_option_role(ctx.role) {
        match ctx.index_in_parent {
            Some(index) => {
                plan.push(AtspiCall::SelectChildOfParent(index));
            },
            None => {},
        }
    }
    assert(plan_view(plan@) =~= select_child(*ctx));
    plan
}

// ---------------------------------------------------------------- named actions

/// `text` in lower case, as [`str::to_lowercase`] gives it.
pub uninterp spec fn lowercase(text: Seq<char>) -> Seq<char>;

/// [`str::to_lowercase`]: its result is a function of the characters of `text`.
#[verifier::external_body]
fn to_lowercase(text: &str) -> (lower: String)
    ensures
        lower@ == lowercase(text@),
{
    text.to_lowercase()
}

/// The names in lower case.
pub open spec fn lowercase_all(names: Seq<Seq<char>>) -> Seq<Seq<char>> {
    names.map_values(|n: Seq<char>| lowercase(n))
}

/// `indices` with those of the names that are `candidate`, each once.
pub open spec fn with_matches(
    indices: Seq<i32>,
    names: Seq<Seq<char>>,
    candidate: Seq<char>,
) -> Seq<i32>
    decreases names.len(),
{
    if names.len() == 0 {
        indices
    } else {
        let before = with_matches(indices, names.drop_last(), candidate);
        let index = (names.len() - 1) as i32;
        if names.last() == candidate && !before.contains(index) {
            before.push(index)
        } else {
            before
        }
    }
}

/// The indices of the names that are one of `candidates`, in the order of the
/// candidates.
pub open spec fn matching(names: Seq<Seq<char>>, candidates: Seq<Seq<char>>) -> Seq<i32>
    decreases candidates.len(),
{
    if candidates.len() == 0 {
        Seq::empty()
    } else {
        with_matches(matching(names, candidates.drop_last()), names, candidates.last())
    }
}

/// The indices to try: those of the names that match, then the first action of
/// all. That fallback stays even where no name matches, but a target with no
/// action surface at all gets none.
pub open spec fn action_indices(
    names: Seq<Seq<char>>,
    candidates: Seq<Seq<char>>,
    has_actions: bool,
) -> Seq<i32> {
    let named = matching(names, candidates);
    if (has_actions || names.len() > 0) && !named.contains(0i32) {
        named.push(0i32)
    } else {
        named
    }
}

/// The calls that perform the actions at `indices`.
pub open spec fn do_actions(indices: Seq<i32>) -> Seq<CallView> {
    indices.map_values(|i: i32| CallView::DoAction(i))
}

/// The contents of a list of string slices.
pub open spec fn str_views(texts: Seq<&str>) -> Seq<Seq<char>> {
    texts.map_values(|t: &str| t@)
}

fn has_index(indices: &Vec<i32>, index: i32) -> (found: bool)
    ensures
        found == indices@.contains(index),
{
    for i in 0..indices.len()
        invariant
            forall|j: int| 0 <= j < i ==> indices@[j] != index,
    {
        if indices[i] == index {
            assert(indices@[i as int] == index);
            return true;
        }
    }
    false
}

/// Adds to `indices` those of the names that are `candidate`; see
/// [`with_matches`].
fn add_matches(indices: &mut Vec<i32>, names: &[String], candidate: &str)
    ensures
        final(indices)@ == with_matches(old(indices)@, views(names@), candidate@),
{
    let ghost all = views(names@);
    for i in 0..names.len()
        invariant
            all == views(names@),
            indices@ == with_matches(old(indices)@, all.take(i as int), candidate@),
    {
        assert(all.take(i + 1).drop_last() =~= all.take(i as int));
        assert(all.take(i + 1).last() == names@[i as int]@);
        let index: i32 = i as i32;
        if same(names[i].as_str(), candidate) && !has_index(indices, index) {
            indices.push(index);
        }
    }
    assert(all.take(names@.len() as int) =~= all);
}

/// The calls to try for a target whose actions have these names in lower case;
/// see [`action_indices`].
pub fn named_steps(names: &[String], candidates: &[&str], has_actions: bool) -> (plan: Vec<
    AtspiCall,
>)
    ensures
        plan_view(plan@) == do_actions(
            action_indices(views(names@), str_views(candidates@), has_actions),
        ),
{
    let ghost wanted = str_views(candidates@);
    let mut indices: Vec<i32> = Vec::new();
    for i in 0..candidates.len()
        invariant
            wanted == str_views(candidates@),
            indices@ == matching(views(names@), wanted.take(i as int)),
    {
        assert(wanted.take(i + 1).drop_last() =~= wanted.take(i as int));
        assert(wanted.take(i + 1).last() == candidates@[i as int]@);
        add_matches(&mut indices, names, candidates[i]);
    }
    assert(wanted.take(candidates@.len() as int) =~= wanted);
    if (has_actions || names.len() > 0) && !has_index(&indices, 0) {
        indices.push(0);
    }
    let mut plan: Vec<AtspiCall> = Vec::new();
    for i in 0..indices.len()
        invariant
            plan@.len() == i,
            forall|j: int| 0 <= j < i ==> (#[trigger] plan@[j])@ == CallView::DoAction(indices@[j]),
    {
        plan.push(AtspiCall::DoAction(indices[i]));
    }
    assert(plan_view(plan@) =~= do_actions(indices@));
    plan
}

/// The calls that perform an action of one of the names in `candidates`.
pub open spec fn action_steps(ctx: ActionContext, candidates: Seq<Seq<char>>) -> Seq<CallView> {
    do_actions(
        action_indices(
            lowercase_all(views(ctx.actions@)),
            candidates,
            ctx.interfaces@.contains(Interface::Action),
        ),
    )
}

/// See [`action_steps`].
fn do_action_steps(ctx: &ActionContext, candidates: &[&str]) -> (plan: Vec<AtspiCall>)
    ensures
        plan_view(plan@) == action_steps(*ctx, str_views(candidates@)),
{
    let mut names: Vec<String> = Vec::new();
    for i in 0..ctx.actions.len()
        invariant
            names@.len() == i,
            forall|j: int| 0 <= j < i ==> (#[trigger] names@[j])@ == lowercase(ctx.actions@[j]@),
    {
        names.push(to_lowercase(ctx.actions[i].as_str()));
    }
    assert(views(names@) =~= lowercase_all(views(ctx.actions@)));
    named_steps(names.as_slice(), candidates, ctx.interfaces.contains(Interface::Action))
}

// ---------------------------------------------------------------- values

/// A value's next one up or down, clamped to its range: by its own step, or by a
/// hundredth of the range where the toolkit reports none.
pub open spec fn stepped(value: ValueState, by: Stepping, up: bool) -> Option<Float64> {
    let bounded = value.minimum.finite() && value.maximum.finite();
    let own = value.step.finite() && value.step.value() > 0;
    let step = if own {
        value.step
    } else {
        by.hundredth
    };
    if (!own && !bounded) || !step.finite() || step.value() <= 0 || !value.current.finite() {
        None
    } else {
        let target = match (own, up) {
            (true, true) => by.up_by_step,
            (true, false) => by.down_by_step,
            (false, true) => by.up_by_hundredth,
            (false, false) => by.down_by_hundredth,
        };
        if bounded && value.minimum.value() <= value.maximum.value() {
            Some(clamped(target, value.minimum, value.maximum))
        } else {
            Some(target)
        }
    }
}

/// The next value; see [`stepped`].
pub fn step_value(value: &ValueState, by: &Stepping, up: bool) -> (next: Option<Float64>)
    ensures
        next == stepped(*value, *by, up),
{
    let bounded: bool = value.minimum.is_finite() && value.maximum.is_finite();
    let own: bool = value.step.is_finite() && value.step.is_positive();
    let step: Float64 = if own {
        value.step
    } else {
        by.hundredth
    };
    if (!own && !bounded) || !step.is_finite() || !step.is_positive() || !value.current.is_finite()
    {
        return None;
    }
    let target: Float64 = if own {
        if up {
            by.up_by_step
        } else {
            by.down_by_step
        }
    } else if up {
        by.up_by_hundredth
    } else {
        by.down_by_hundredth
    };
    if bounded && !value.maximum.less(value.minimum) {
        Some(target.clamp_to(value.minimum, value.maximum))
    } else {
        Some(target)
    }
}

/// The call that steps the target's value.
pub open spec fn value_steps(ctx: ActionContext, up: bool) -> Seq<CallView> {
    match ctx.value {
        Some((value, by)) => match stepped(value, by, up) {
            Some(next) => seq![CallView::SetCurrentValue(next)],
            None => Seq::empty(),
        },
        None => Seq::empty(),
    }
}

/// See [`value_steps`].
fn value_step(ctx: &ActionContext, up: bool) -> (plan: Vec<AtspiCall>)
    ensures
        plan_view(plan@) == value_steps(*ctx, up),
{
    let mut plan: Vec<AtspiCall> = Vec::new();
    match &ctx.value {
        Some((value, by)) => match step_value(value, by, up) {
            Some(next) => {
                plan.push(AtspiCall::SetCurrentValue(next));
            },
            None => {},
        },
        None => {},
    }
    assert(plan_view(plan@) =~= value_steps(*ctx, up));
    plan
}

/// The call that sets the target's text or value, by the interface it has.
pub open spec fn set_value_steps(ctx: ActionContext, data: Option<&ActionData>) -> Seq<CallView> {
    match data {
        Some(ActionData::Value(text)) if ctx.interfaces@.contains(Interface::EditableText) => seq![
            CallView::SetTextContents(text@),
        ],
        Some(ActionData::NumericValue(value)) if ctx.interfaces@.contains(Interface::Value)
            && value.finite() => seq![CallView::SetCurrentValue(*value)],
        _ => Seq::empty(),
    }
}

/// See [`set_value_steps`].
fn set_value_step(ctx: &ActionContext, data: Option<&ActionData>) -> (plan: Vec<AtspiCall>)
    ensures
        plan_view(plan@) == set_value_steps(*ctx, data),
{
    let mut plan: Vec<AtspiCall> = Vec::new();
    match data {
        Some(ActionData::Value(text)) => {
            if ctx.interfaces.contains(Interface::EditableText) {
                plan.push(AtspiCall::SetTextContents(text.clone()));
            }
        },
        Some(ActionData::NumericValue(value)) => {
            if ctx.interfaces.contains(Interface::Value) && value.is_finite() {
                plan.push(AtspiCall::SetCurrentValue(*value));
            }
        },
        _ => {},
    }
    assert(plan_view(plan@) =~= set_value_steps(*ctx, data));
    plan
}

// ---------------------------------------------------------------- plans

/// The names under which an action goes, most likely first.
pub open spec fn names_for(action: Action) -> Seq<Seq<char>> {
    match action {
        Action::Click => seq!["click"@, "press"@, "toggle"@, "activate"@],
        Action::Expand => seq!["expand"@, "menu.popup"@, "popup"@, "show"@, "press"@],
        Action::Collapse => seq![
            "collapse"@,
            "menu.popdown"@,
            "popdown"@,
            "close"@,
            "menu.popup"@,
            "press"@,
        ],
        _ => Seq::empty(),
    }
}

/// The calls that could carry out an action on a target, most likely to succeed
/// first.
pub open spec fn planned(
    ctx: ActionContext,
    action: Action,
    data: Option<&ActionData>,
) -> Seq<CallView> {
    match action {
        Action::Click => select_child(ctx) + action_steps(ctx, names_for(action)),
        Action::Focus => seq![CallView::GrabFocus] + select_child(ctx),
        Action::Expand => action_steps(ctx, names_for(action)),
        Action::Collapse => action_steps(ctx, names_for(action)),
        Action::Increment => value_steps(ctx, true),
        Action::Decrement => value_steps(ctx, false),
        Action::SetValue => set_value_steps(ctx, data),
        _ => Seq::empty(),
    }
}

/// Plans the calls that could carry out `action` on the target, in order. They
/// are to be tried in turn until one succeeds; an empty plan means that the
/// action cannot be expressed on this target at all.
pub fn plan_action(ctx: &ActionContext, action: Action, data: Option<&ActionData>) -> (plan: Vec<
    AtspiCall,
>)
    ensures
        plan_view(plan@) == planned(*ctx, action, data),
{
    match action {
        Action::Click => {
            let mut plan: Vec<AtspiCall> = select_child_step(ctx);
            let names: [&str; 4] = ["click", "press", "toggle", "activate"];
            assert(str_views(names@) =~= names_for(action));
            let mut named: Vec<AtspiCall> = do_action_steps(ctx, names.as_slice());
            proof {
                lemma_plan_concat(plan@, named@);
            }
            plan.append(&mut named);
            plan
        },
        Action::Focus => {
            let mut plan: Vec<AtspiCall> = Vec::new();
            plan.push(AtspiCall::GrabFocus);
            assert(plan_view(plan@) =~= seq![CallView::GrabFocus]);
            let mut selected: Vec<AtspiCall> = select_child_step(ctx);
            proof {
                lemma_plan_concat(plan@, selected@);
            }
            plan.append(&mut selected);
            plan
        },
        Action::Expand => {
            let names: [&str; 5] = ["expand", "menu.popup", "popup", "show", "press"];
            assert(str_views(names@) =~= names_for(action));
            do_action_steps(ctx, names.as_slice())
        },
        Action::Collapse => {
            let names: [&str; 6] = [
                "collapse",
                "menu.popdown",
                "popdown",
                "close",
                "menu.popup",
                "press",
            ];
            assert(str_views(names@) =~= names_for(action));
            do_action_steps(ctx, names.as_slice())
        },
        Action::Increment => value_step(ctx, true),
        Action::Decrement => value_step(ctx, false),
        Action::SetValue => set_value_step(ctx, data),
        _ => {
            let plan: Vec<AtspiCall> = Vec::new();
            assert(plan_view(plan@) =~= Seq::<CallView>::empty());
            plan
        },
    }
}

/// A stepped value stays in its range.
pub proof fn law_steps_stay_in_range(value: ValueState, by: Stepping, up: bool)
    requires
        value.minimum.finite(),
        value.maximum.finite(),
        value.minimum.value() <= value.maximum.value(),
        !by.up_by_step.nan() && !by.down_by_step.nan(),
        !by.up_by_hundredth.nan() && !by.down_by_hundredth.nan(),
    ensures
        stepped(value, by, up) matches Some(next) ==> value.minimum.value() <= next.value()
            <= value.maximum.value(),
{
}

// ---------------------------------------------------------------- what plans are for

/// A step moves in its own direction, by the step that the value reports or else by a
/// hundredth of its range: where nothing has to be clamped, the next value is the one
/// so moved. There is none exactly where the value is no number, or has no step.
pub proof fn law_a_step_moves_in_its_direction(value: ValueState, by: Stepping, up: bool)
    ensures
        ({
            let next = stepped(value, by, up);
            let own = value.step.finite() && value.step.value() > 0;
            let bounded = value.minimum.finite() && value.maximum.finite();
            let hundredth = bounded && by.hundredth.finite() && by.hundredth.value() > 0;
            let free = |target: Float64|
                !target.nan() && (!bounded || value.maximum.value() < value.minimum.value() || (
                value.minimum.value() <= target.value() <= value.maximum.value()));
            let ordered = |down: Float64, up: Float64|
                !down.nan() && !up.nan() && down.value() <= value.current.value() <= up.value();
            &&& next is Some <==> value.current.finite() && (own || hundredth)
            &&& next is Some && own && up && free(by.up_by_step) ==> next == Some(by.up_by_step)
            &&& next is Some && own && !up && free(by.down_by_step) ==> next == Some(
                by.down_by_step,
            )
            &&& next is Some && !own && up && free(by.up_by_hundredth) ==> next == Some(
                by.up_by_hundredth,
            )
            &&& next is Some && !own && !up && free(by.down_by_hundredth) ==> next == Some(
                by.down_by_hundredth,
            )
            &&& next matches Some(n) ==> (ordered(by.down_by_step, by.up_by_step) && ordered(
                by.down_by_hundredth,
                by.up_by_hundredth,
            ) && free(value.current) ==> if up {
                value.current.value() <= n.value()
            } else {
                n.value() <= value.current.value()
            })
        }),
{
}

/// Incrementing steps the value up, decrementing steps it down, and neither does
/// anything else.
pub proof fn law_increments_step_up_and_decrements_down(
    ctx: ActionContext,
    data: Option<&ActionData>,
)
    ensures
        ctx.value matches Some((value, by)) ==> {
            let (more, less) = (
                planned(ctx, Action::Increment, data),
                planned(ctx, Action::Decrement, data),
            );
            &&& match stepped(value, by, true) {
                Some(next) => more == seq![CallView::SetCurrentValue(next)],
                None => more.len() == 0,
            }
            &&& match stepped(value, by, false) {
                Some(next) => less == seq![CallView::SetCurrentValue(next)],
                None => less.len() == 0,
            }
        },
        ctx.value is None ==> planned(ctx, Action::Increment, data).len() == 0 && planned(
            ctx,
            Action::Decrement,
            data,
        ).len() == 0,
{
}

/// Whether an index is that of an action under one of the names.
pub open spec fn goes_by(names: Seq<Seq<char>>, wanted: Seq<Seq<char>>, index: i32) -> bool {
    0 <= index < names.len() && wanted.contains(names[index as int])
}

proof fn lemma_with_matches(
    indices: Seq<i32>,
    names: Seq<Seq<char>>,
    candidate: Seq<char>,
    index: i32,
)
    requires
        names.len() <= i32::MAX,
        indices.no_duplicates(),
    ensures
        with_matches(indices, names, candidate).no_duplicates(),
        indices.is_prefix_of(with_matches(indices, names, candidate)),
        with_matches(indices, names, candidate).contains(index) <==> indices.contains(index) || (0
            <= index < names.len() && names[index as int] == candidate),
        forall|p: int|
            indices.len() <= p < with_matches(indices, names, candidate).len() ==> {
                let i = #[trigger] with_matches(indices, names, candidate)[p];
                0 <= i < names.len() && names[i as int] == candidate
            },
        forall|p: int, q: int|
            indices.len() <= p < q < with_matches(indices, names, candidate).len()
                ==> #[trigger] with_matches(indices, names, candidate)[p] < #[trigger] with_matches(
                indices,
                names,
                candidate,
            )[q],
    decreases names.len(),
{
    let all = with_matches(indices, names, candidate);
    if names.len() > 0 {
        let init = names.drop_last();
        let last = (names.len() - 1) as i32;
        lemma_with_matches(indices, init, candidate, index);
        let before = with_matches(indices, init, candidate);
        assert forall|p: int| indices.len() <= p < before.len() implies 0 <= #[trigger] before[p]
            < last && names[before[p] as int] == candidate by {
            assert(init[before[p] as int] == names[before[p] as int]);
        }
        if names.last() == candidate && !before.contains(last) {
            assert(all == before.push(last));
            assert forall|p: int, q: int| 0 <= p < q < all.len() implies all[p] != all[q] by {
                if q == before.len() {
                    assert(before.contains(before[p]));
                }
            }
            assert(all[before.len() as int] == last);
        }
        if before.contains(index) {
            let p = before.index_of(index);
            assert(all[p] == index);
        }
        if all.contains(index) && !before.contains(index) {
            let p = all.index_of(index);
            assert(p == before.len());
        }
        if 0 <= index < init.len() {
            assert(init[index as int] == names[index as int]);
        }
        assert forall|p: int| indices.len() <= p < all.len() implies {
            let i = #[trigger] all[p];
            0 <= i < names.len() && names[i as int] == candidate
        } by {
            if p < before.len() {
                assert(all[p] == before[p]);
            }
        }
        assert forall|p: int, q: int| indices.len() <= p < q < all.len() implies #[trigger] all[p]
            < #[trigger] all[q] by {
            assert(all[p] == before[p]);
            if q < before.len() {
                assert(all[q] == before[q]);
            }
        }
    }
}

proof fn lemma_matching(names: Seq<Seq<char>>, wanted: Seq<Seq<char>>, index: i32)
    requires
        names.len() <= i32::MAX,
    ensures
        matching(names, wanted).no_duplicates(),
        matching(names, wanted).contains(index) <==> goes_by(names, wanted, index),
    decreases wanted.len(),
{
    let all = matching(names, wanted);
    if wanted.len() > 0 {
        let init = wanted.drop_last();
        lemma_matching(names, init, index);
        lemma_with_matches(matching(names, init), names, wanted.last(), index);
        if 0 <= index < names.len() {
            let name = names[index as int];
            if init.contains(name) {
                let k = init.index_of(name);
                assert(wanted[k] == name);
            }
            if wanted.contains(name) && name != wanted.last() {
                let k = wanted.index_of(name);
                assert(init[k] == name);
            }
            if name == wanted.last() {
                assert(wanted[wanted.len() - 1] == name);
            }
        }
    }
}

/// Every action of the target that goes by a wanted name is tried, each once, and the
/// first action of all is tried last where it is not among them; nothing else is. A
/// target without any action surface gets none.
pub proof fn law_every_action_of_a_wanted_name_is_tried(
    names: Seq<Seq<char>>,
    wanted: Seq<Seq<char>>,
    has_actions: bool,
    index: i32,
)
    requires
        names.len() <= i32::MAX,
    ensures
        ({
            let tried = action_indices(names, wanted, has_actions);
            &&& tried.no_duplicates()
            &&& tried.contains(index) <==> goes_by(names, wanted, index) || (index == 0 && (
            has_actions || names.len() > 0))
            &&& !goes_by(names, wanted, 0) && tried.contains(0) ==> tried.last() == 0
        }),
{
    lemma_matching(names, wanted, index);
    lemma_matching(names, wanted, 0);
    let named = matching(names, wanted);
    let tried = action_indices(names, wanted, has_actions);
    if tried.len() > named.len() {
        assert forall|p: int, q: int| 0 <= p < q < tried.len() implies tried[p] != tried[q] by {
            if q == named.len() {
                assert(named.contains(named[p]));
            }
        }
        assert(tried[named.len() as int] == 0);
        if named.contains(index) {
            let p = named.index_of(index);
            assert(tried[p] == index);
        }
        if tried.contains(index) && !named.contains(index) {
            let p = tried.index_of(index);
            assert(p == named.len());
        }
    }
}

/// Actions are tried in the order in which their names are wanted.
pub proof fn law_actions_are_tried_in_the_order_wanted(
    names: Seq<Seq<char>>,
    wanted: Seq<Seq<char>>,
    p: int,
    q: int,
    b: int,
)
    requires
        names.len() <= i32::MAX,
        0 <= p < q < matching(names, wanted).len(),
        0 <= b < wanted.len(),
        wanted[b] == names[matching(names, wanted)[q] as int],
    ensures
        matching(names, wanted).is_prefix_of(action_indices(names, wanted, true)),
        exists|a: int|
            0 <= a <= b && #[trigger] wanted[a] == names[matching(names, wanted)[p] as int] && (a
                == b ==> matching(names, wanted)[p] < matching(names, wanted)[q]),
    decreases wanted.len(),
{
    let all = matching(names, wanted);
    let init = wanted.drop_last();
    let before = matching(names, init);
    let last = wanted.len() - 1;
    lemma_matching(names, init, 0);
    lemma_with_matches(before, names, wanted.last(), 0);
    assert(before =~= all.take(before.len() as int));
    if q < before.len() {
        assert(before[p] == all[p] && before[q] == all[q]);
        lemma_matching(names, init, before[q]);
        assert(before.contains(before[q]));
        if b == last {
            // The name stands in front too, and counts from there.
            let c = init.index_of(names[all[q] as int]);
            law_actions_are_tried_in_the_order_wanted(names, init, p, q, c);
            let a = choose|a: int|
                0 <= a <= c && #[trigger] init[a] == names[before[p] as int] && (a == c
                    ==> before[p] < before[q]);
            assert(wanted[a] == names[all[p] as int]);
        } else {
            assert(init[b] == wanted[b]);
            law_actions_are_tried_in_the_order_wanted(names, init, p, q, b);
            let a = choose|a: int|
                0 <= a <= b && #[trigger] init[a] == names[before[p] as int] && (a == b
                    ==> before[p] < before[q]);
            assert(wanted[a] == names[all[p] as int]);
        }
    } else {
        assert(names[all[q] as int] == wanted.last());
        if b < last {
            // Then it would have been found before.
            assert(init[b] == wanted[b]);
            assert(init.contains(wanted[b]));
            lemma_matching(names, init, all[q]);
            assert(before.contains(all[q]));
            let r = before.index_of(all[q]);
            assert(all[r] == all[q]);
            lemma_matching(names, wanted, 0);
        } else if p < before.len() {
            assert(before[p] == all[p]);
            lemma_matching(names, init, before[p]);
            assert(before.contains(before[p]));
            let a = init.index_of(names[before[p] as int]);
            assert(wanted[a] == names[all[p] as int]);
        } else {
            assert(wanted[last] == names[all[p] as int]);
        }
    }
}

/// The calls that perform actions are those of the indices that are tried, and no
/// other call is made for an action by name.
pub proof fn law_named_actions_are_performed(ctx: ActionContext, i: int)
    requires
        0 <= i < ctx.actions@.len() <= i32::MAX,
    ensures
        ({
            let name = lowercase(ctx.actions@[i]@);
            let call = CallView::DoAction(i as i32);
            let (click, expand, collapse) = (
                planned(ctx, Action::Click, None),
                planned(ctx, Action::Expand, None),
                planned(ctx, Action::Collapse, None),
            );
            &&& i > 0 ==> (click.contains(call) <==> name == "click"@ || name == "press"@ || name
                == "toggle"@ || name == "activate"@)
            &&& i > 0 ==> (expand.contains(call) <==> name == "expand"@ || name == "menu.popup"@
                || name == "popup"@ || name == "show"@ || name == "press"@)
            &&& i > 0 ==> (collapse.contains(call) <==> name == "collapse"@ || name
                == "menu.popdown"@ || name == "popdown"@ || name == "close"@ || name
                == "menu.popup"@ || name == "press"@)
            &&& i == 0 ==> click.contains(call) && expand.contains(call) && collapse.contains(call)
        }),
{
    let names = lowercase_all(views(ctx.actions@));
    let has = ctx.interfaces@.contains(Interface::Action);
    let name = lowercase(ctx.actions@[i]@);
    assert(names[i] == name);
    let call = CallView::DoAction(i as i32);
    let (a, b, c) = (
        names_for(Action::Click),
        names_for(Action::Expand),
        names_for(Action::Collapse),
    );
    lemma_calls(ctx, a, i as i32);
    lemma_calls(ctx, b, i as i32);
    lemma_calls(ctx, c, i as i32);
    assert(a.contains(name) <==> name == "click"@ || name == "press"@ || name == "toggle"@ || name
        == "activate"@) by {
        assert(a[0] == "click"@ && a[1] == "press"@ && a[2] == "toggle"@ && a[3] == "activate"@);
    }
    assert(b.contains(name) <==> name == "expand"@ || name == "menu.popup"@ || name == "popup"@
        || name == "show"@ || name == "press"@) by {
        assert(b[0] == "expand"@ && b[1] == "menu.popup"@ && b[2] == "popup"@ && b[3] == "show"@
            && b[4] == "press"@);
    }
    assert(c.contains(name) <==> name == "collapse"@ || name == "menu.popdown"@ || name
        == "popdown"@ || name == "close"@ || name == "menu.popup"@ || name == "press"@) by {
        assert(c[0] == "collapse"@ && c[1] == "menu.popdown"@ && c[2] == "popdown"@ && c[3]
            == "close"@ && c[4] == "menu.popup"@ && c[5] == "press"@);
    }
    let (first, rest) = (select_child(ctx), action_steps(ctx, a));
    let click = planned(ctx, Action::Click, None);
    assert(click == first + rest);
    if rest.contains(call) {
        let p = rest.index_of(call);
        assert(click[first.len() + p] == call);
    }
    if click.contains(call) {
        let p = click.index_of(call);
        assert(p >= first.len());
        assert(rest[p - first.len()] == call);
    }
}

proof fn lemma_calls(ctx: ActionContext, wanted: Seq<Seq<char>>, index: i32)
    requires
        0 <= index < ctx.actions@.len() <= i32::MAX,
    ensures
        action_steps(ctx, wanted).contains(CallView::DoAction(index)) <==> index == 0
            || wanted.contains(lowercase(ctx.actions@[index as int]@)),
{
    let names = lowercase_all(views(ctx.actions@));
    let has = ctx.interfaces@.contains(Interface::Action);
    assert(names[index as int] == lowercase(ctx.actions@[index as int]@));
    law_every_action_of_a_wanted_name_is_tried(names, wanted, has, index);
    let tried = action_indices(names, wanted, has);
    let calls = action_steps(ctx, wanted);
    let call = CallView::DoAction(index);
    if tried.contains(index) {
        let p = tried.index_of(index);
        assert(calls[p] == call);
    }
    if calls.contains(call) {
        let p = calls.index_of(call);
        assert(tried[p] == index);
    }
}

/// Selecting through the parent is planned exactly for an option whose place is known
/// in a container that implements selection; a click tries it first. Focus is always
/// grabbed first.
pub proof fn law_an_option_is_selected_through_its_parent(ctx: ActionContext, index: i32)
    ensures
        ({
            let call = CallView::SelectChildOfParent(index);
            let (click, focus) = (
                planned(ctx, Action::Click, None),
                planned(ctx, Action::Focus, None),
            );
            let option = ctx.role == Role::ListItem || ctx.role == Role::TreeItem || ctx.role
                == Role::PageTab || ctx.role == Role::MenuItem || ctx.role == Role::CheckMenuItem
                || ctx.role == Role::RadioMenuItem;
            let wanted = option && ctx.parent_interfaces@.contains(Interface::Selection)
                && ctx.index_in_parent == Some(index);
            &&& click.contains(call) <==> wanted
            &&& wanted ==> click[0] == call
            &&& focus.contains(call) <==> wanted
            &&& focus[0] == CallView::GrabFocus
            &&& focus.len() <= 2
        }),
{
    let call = CallView::SelectChildOfParent(index);
    let (first, rest) = (select_child(ctx), action_steps(ctx, names_for(Action::Click)));
    let (click, focus) = (planned(ctx, Action::Click, None), planned(ctx, Action::Focus, None));
    assert(click == first + rest);
    assert(focus == seq![CallView::GrabFocus] + first);
    if click.contains(call) {
        let p = click.index_of(call);
        if p >= first.len() {
            assert(rest[p - first.len()] == call);
        }
        assert(first[0] == call);
    }
    if focus.contains(call) {
        let p = focus.index_of(call);
        assert(first[p - 1] == call);
    }
    if first.len() > 0 {
        assert(click[0] == first[0]);
        assert(focus[1] == first[0]);
    }
}

/// A value is set by the interface that can hold it: a text where text can be edited,
/// a finite number where there is a value, and nothing else is written.
pub proof fn law_a_value_is_set_as_it_was_asked_for(ctx: ActionContext, data: Option<&ActionData>)
    ensures
        ({
            let plan = planned(ctx, Action::SetValue, data);
            &&& data matches Some(ActionData::Value(text)) ==> if ctx.interfaces@.contains(
                Interface::EditableText,
            ) {
                plan == seq![CallView::SetTextContents(text@)]
            } else {
                plan.len() == 0
            }
            &&& data matches Some(ActionData::NumericValue(number)) ==> if ctx.interfaces@.contains(
                Interface::Value,
            ) && number.finite() {
                plan == seq![CallView::SetCurrentValue(*number)]
            } else {
                plan.len() == 0
            }
            &&& data is None ==> plan.len() == 0
            &&& planned(ctx, Action::SetTextSelection, data).len() == 0
            &&& planned(ctx, Action::Other, data).len() == 0
        }),
{
}

/// Under which names an action goes, and in which order they are wanted: its own first,
/// and a press last for what opens and closes. Any other action goes under none.
pub proof fn law_actions_go_by_their_names(action: Action, i: int)
    ensures
        action == Action::Click && 0 <= i < names_for(action).len() ==> names_for(action)[i]
            == if i == 0 {
            "click"@
        } else if i == 1 {
            "press"@
        } else if i == 2 {
            "toggle"@
        } else {
            "activate"@
        },
        action == Action::Expand && 0 <= i < names_for(action).len() ==> names_for(action)[i]
            == if i == 0 {
            "expand"@
        } else if i == 1 {
            "menu.popup"@
        } else if i == 2 {
            "popup"@
        } else if i == 3 {
            "show"@
        } else {
            "press"@
        },
        action == Action::Collapse && 0 <= i < names_for(action).len() ==> names_for(action)[i]
            == if i == 0 {
            "collapse"@
        } else if i == 1 {
            "menu.popdown"@
        } else if i == 2 {
            "popdown"@
        } else if i == 3 {
            "close"@
        } else if i == 4 {
            "menu.popup"@
        } else {
            "press"@
        },
        names_for(action).len() == if action == Action::Click {
            4nat
        } else if action == Action::Expand {
            5
        } else if action == Action::Collapse {
            6
        } else {
            0
        },
{
}

} // verus!
