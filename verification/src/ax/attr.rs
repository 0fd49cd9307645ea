//! What is made of the answers of the accessibility interface: which failures are
//! ordinary, and what an attribute's value is read as.

use crate::number::Float64;
use crate::tree::text_view;
use vstd::prelude::*;

verus! {

/// The outcome of a call.
#[derive(Debug, Clone, Copy, PartialEq, Eq, Structural)]
pub enum Status {
    Success,
    Failure,
    IllegalArgument,
    InvalidUIElement,
    InvalidUIElementObserver,
    CannotComplete,
    AttributeUnsupported,
    ActionUnsupported,
    NotificationUnsupported,
    NotImplemented,
    NotificationAlreadyRegistered,
    NotificationNotRegistered,
    APIDisabled,
    NoValue,
    ParameterizedAttributeUnsupported,
    NotEnoughPrecision,
    Other,
}

/// A call that failed for a reason worth reacting to, as opposed to an element
/// that has no such attribute.
#[derive(Debug, Clone, Copy, PartialEq, Eq, Structural)]
pub struct AxError(pub Status);

/// The short name of an outcome.
pub open spec fn status_name(status: Status) -> Seq<char> {
    match status {
        Status::Success => "success"@,
        Status::Failure => "failure"@,
        Status::IllegalArgument => "illegalArgument"@,
        Status::InvalidUIElement => "invalidUIElement"@,
        Status::InvalidUIElementObserver => "invalidUIElementObserver"@,
        Status::CannotComplete => "cannotComplete"@,
        Status::AttributeUnsupported => "attributeUnsupported"@,
        Status::ActionUnsupported => "actionUnsupported"@,
        Status::NotificationUnsupported => "notificationUnsupported"@,
        Status::NotImplemented => "notImplemented"@,
        Status::NotificationAlreadyRegistered => "notificationAlreadyRegistered"@,
        Status::NotificationNotRegistered => "notificationNotRegistered"@,
        Status::APIDisabled => "apiDisabled"@,
        Status::NoValue => "noValue"@,
        Status::ParameterizedAttributeUnsupported => "parameterizedAttributeUnsupported"@,
        Status::NotEnoughPrecision => "notEnoughPrecision"@,
        Status::Other => "unknown"@,
    }
}

impl AxError {
    /// A stable short name, for logs and summaries.
    pub fn name(self) -> (name: &'static str)
        ensures
            name@ == status_name(self.0),
    {
        match self.0 {
            Status::Success => "success",
            Status::Failure => "failure",
            Status::IllegalArgument => "illegalArgument",
            Status::InvalidUIElement => "invalidUIElement",
            Status::InvalidUIElementObserver => "invalidUIElementObserver",
            Status::CannotComplete => "cannotComplete",
            Status::AttributeUnsupported => "attributeUnsupported",
            Status::ActionUnsupported => "actionUnsupported",
            Status::NotificationUnsupported => "notificationUnsupported",
            Status::NotImplemented => "notImplemented",
            Status::NotificationAlreadyRegistered => "notificationAlreadyRegistered",
            Status::NotificationNotRegistered => "notificationNotRegistered",
            Status::APIDisabled => "apiDisabled",
            Status::NoValue => "noValue",
            Status::ParameterizedAttributeUnsupported => "parameterizedAttributeUnsupported",
            Status::NotEnoughPrecision => "notEnoughPrecision",
            Status::Other => "unknown",
        }
    }

    /// Whether the element is gone, so that it is to be dropped rather than tried
    /// again. An application that did not answer in time may answer next time.
    pub fn is_element_dead(self) -> (dead: bool)
        ensures
            dead == (self.0 == Status::InvalidUIElement),
    {
        matches!(self.0, Status::InvalidUIElement)
    }
}

/// Whether an outcome means that there is nothing to read, which is ordinary.
pub open spec fn means_absent(status: Status) -> bool {
    status == Status::AttributeUnsupported || status == Status::NoValue || status
        == Status::ActionUnsupported
}

/// Tells apart the three outcomes that matter: a value, a legitimate absence, and
/// an error.
pub fn classify<T>(status: Status, value: Option<T>) -> (outcome: Result<Option<T>, AxError>)
    ensures
        status == Status::Success ==> outcome == Ok::<Option<T>, AxError>(value),
        means_absent(status) ==> outcome == Ok::<Option<T>, AxError>(None),
        status != Status::Success && !means_absent(status) ==> outcome == Err::<
            Option<T>,
            AxError,
        >(AxError(status)),
{
    match status {
        Status::Success => Ok(value),
        Status::AttributeUnsupported | Status::NoValue | Status::ActionUnsupported => Ok(None),
        other => Err(AxError(other)),
    }
}

/// The value of an attribute, as far as it is interpreted: only the role can tell
/// what it means.
#[derive(Debug, Clone, PartialEq)]
pub enum AxValue {
    Text(String),
    Number(Float64),
    Flag(bool),
    Other,
}

/// The text of an optional value, if it is one.
pub open spec fn text_in(value: Option<AxValue>) -> Option<Seq<char>> {
    match value {
        Some(AxValue::Text(text)) => Some(text@),
        _ => None,
    }
}

/// The number of an optional value, if it is one.
pub open spec fn number_in(value: Option<AxValue>) -> Option<Float64> {
    match value {
        Some(AxValue::Number(number)) => Some(number),
        _ => None,
    }
}

/// The flag of an optional value, if it is one. Some toolkits report flags as
/// numbers, where anything but zero is set.
pub open spec fn flag_in(value: Option<AxValue>) -> Option<bool> {
    match value {
        Some(AxValue::Flag(flag)) => Some(flag),
        Some(AxValue::Number(number)) => Some(number.magnitude() != 0),
        _ => None,
    }
}

pub fn as_string(value: &Option<AxValue>) -> (text: Option<String>)
    ensures
        text_view(text) == text_in(*value),
{
    match value {
        Some(AxValue::Text(text)) => Some(text.clone()),
        _ => None,
    }
}

pub fn as_f64(value: &Option<AxValue>) -> (number: Option<Float64>)
    ensures
        number == number_in(*value),
{
    match value {
        Some(AxValue::Number(number)) => Some(*number),
        _ => None,
    }
}

pub fn as_bool(value: &Option<AxValue>) -> (flag: Option<bool>)
    ensures
        flag == flag_in(*value),
{
    match value {
        Some(AxValue::Flag(flag)) => Some(*flag),
        Some(AxValue::Number(number)) => Some(
            number.0 != 0 && number.0 != crate::number::SIGN_BIT,
        ),
        _ => None,
    }
}

/// A range that was reported, with what is negative taken for nothing.
pub fn as_range(location: i64, length: i64) -> (range: Option<(usize, usize)>)
    ensures
        match range {
            Some((start, len)) => {
                &&& start == (if location > 0 {
                    location as int
                } else {
                    0
                })
                &&& len == (if length > 0 {
                    length as int
                } else {
                    0
                })
                &&& start + len <= usize::MAX
            },
            None => location > usize::MAX || length > usize::MAX || location + length > usize::MAX,
        },
{
    let start: u64 = if location > 0 {
        location as u64
    } else {
        0
    };
    let len: u64 = if length > 0 {
        length as u64
    } else {
        0
    };
    if start > usize::MAX as u64 || len > usize::MAX as u64 - start {
        return None;
    }
    Some((start as usize, len as usize))
}

/// What an answer holds is read as what it is: a text as a text, a number as a number, and
/// a flag as a flag. A number counts as a flag too, set unless it is zero; nothing else is
/// read as anything else.
pub proof fn law_answers_are_read_as_they_are(value: Option<AxValue>)
    ensures
        text_in(value) is Some <==> value is Some && value->0 is Text,
        number_in(value) is Some <==> value is Some && value->0 is Number,
        flag_in(value) is Some <==> value is Some && (value->0 is Flag || value->0 is Number),
        value matches Some(AxValue::Text(text)) ==> text_in(value) == Some(text@),
        value matches Some(AxValue::Number(number)) ==> number_in(value) == Some(number),
        value matches Some(AxValue::Flag(flag)) ==> flag_in(value) == Some(flag),
        value matches Some(AxValue::Number(number)) ==> (number.magnitude() == 0 <==> flag_in(value)
            == Some(false)),
{
}

/// Which outcomes mean that there is nothing to read. Success is none of them, and neither
/// is an element that is gone.
pub proof fn law_absence_is_no_failure(status: Status)
    ensures
        means_absent(status) ==> status != Status::Success && status != Status::InvalidUIElement
            && status != Status::Failure,
        means_absent(status) <==> seq![
            Status::ActionUnsupported,
            Status::AttributeUnsupported,
            Status::NoValue,
        ].contains(status),
{
    let all = seq![Status::ActionUnsupported, Status::AttributeUnsupported, Status::NoValue];
    assert(all[0] == Status::ActionUnsupported && all[1] == Status::AttributeUnsupported && all[2]
        == Status::NoValue);
}

/// The name of an outcome tells which it is.
pub proof fn law_names_tell_outcomes_apart(status: Status)
    ensures
        status_name(status) == "success"@ <==> status == Status::Success,
        status_name(status) == "failure"@ <==> status == Status::Failure,
        status_name(status) == "illegalArgument"@ <==> status == Status::IllegalArgument,
        status_name(status) == "invalidUIElement"@ <==> status == Status::InvalidUIElement,
        status_name(status) == "invalidUIElementObserver"@ <==> status
            == Status::InvalidUIElementObserver,
        status_name(status) == "cannotComplete"@ <==> status == Status::CannotComplete,
        status_name(status) == "attributeUnsupported"@ <==> status == Status::AttributeUnsupported,
        status_name(status) == "actionUnsupported"@ <==> status == Status::ActionUnsupported,
        status_name(status) == "notificationUnsupported"@ <==> status
            == Status::NotificationUnsupported,
        status_name(status) == "notImplemented"@ <==> status == Status::NotImplemented,
        status_name(status) == "notificationAlreadyRegistered"@ <==> status
            == Status::NotificationAlreadyRegistered,
        status_name(status) == "notificationNotRegistered"@ <==> status
            == Status::NotificationNotRegistered,
        status_name(status) == "apiDisabled"@ <==> status == Status::APIDisabled,
        status_name(status) == "noValue"@ <==> status == Status::NoValue,
        status_name(status) == "parameterizedAttributeUnsupported"@ <==> status
            == Status::ParameterizedAttributeUnsupported,
        status_name(status) == "notEnoughPrecision"@ <==> status == Status::NotEnoughPrecision,
        status_name(status) == "unknown"@ <==> status == Status::Other,
{
    reveal_strlit("success");
    reveal_strlit("failure");
    reveal_strlit("illegalArgument");
    reveal_strlit("invalidUIElement");
    reveal_strlit("invalidUIElementObserver");
    reveal_strlit("cannotComplete");
    reveal_strlit("attributeUnsupported");
    reveal_strlit("actionUnsupported");
    reveal_strlit("notificationUnsupported");
    reveal_strlit("notImplemented");
    reveal_strlit("notificationAlreadyRegistered");
    reveal_strlit("notificationNotRegistered");
    reveal_strlit("apiDisabled");
    reveal_strlit("noValue");
    reveal_strlit("parameterizedAttributeUnsupported");
    reveal_strlit("notEnoughPrecision");
    reveal_strlit("unknown");
    assert("success"@.len() == 7 && "failure"@.len() == 7 && "noValue"@.len() == 7
        && "unknown"@.len() == 7);
    assert("illegalArgument"@.len() == 15 && "invalidUIElement"@.len() == 16
        && "invalidUIElementObserver"@.len() == 24 && "cannotComplete"@.len() == 14);
    assert("attributeUnsupported"@.len() == 20 && "actionUnsupported"@.len() == 17
        && "notificationUnsupported"@.len() == 23 && "notImplemented"@.len() == 14);
    assert("notificationAlreadyRegistered"@.len() == 29 && "notificationNotRegistered"@.len() == 25
        && "apiDisabled"@.len() == 11);
    assert("parameterizedAttributeUnsupported"@.len() == 33 && "notEnoughPrecision"@.len() == 18);
    assert("success"@[0] == 's' && "failure"@[0] == 'f' && "noValue"@[0] == 'n' && "unknown"@[0]
        == 'u' && "cannotComplete"@[0] == 'c' && "notImplemented"@[0] == 'n');
}

} // verus!
