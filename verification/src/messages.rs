//! The messages exchanged between provider and consumer.
//!
//! The provider streams window lifecycle, tree updates, and cross-window focus;
//! the consumer sends action requests back.

use accesskit::ActionRequest;
use accesskit::TreeUpdate as ToolkitUpdate;
use vstd::prelude::*;

verus! {

/// The highest protocol version spoken here.
pub const PROTOCOL_VERSION: u32 = 1;

/// The lowest protocol version spoken here.
pub const MIN_PROTOCOL_VERSION: u32 = 1;

/// Identifies one toplevel window for the lifetime of a session. Assigned by the
/// provider; never reused within a session.
#[derive(Debug, Clone, Copy, PartialEq, Eq, Hash, PartialOrd, Ord, Structural)]
pub struct WindowId(pub u64);

#[derive(Debug, Clone, Copy, PartialEq, Eq, Structural)]
pub enum PeerRole {
    Provider,
    Consumer,
}

/// The role a peer of the given role talks to.
pub open spec fn other_role(role: PeerRole) -> PeerRole {
    match role {
        PeerRole::Provider => PeerRole::Consumer,
        PeerRole::Consumer => PeerRole::Provider,
    }
}

impl PeerRole {
    pub fn opposite(self) -> (role: Self)
        ensures
            role == other_role(self),
    {
        match self {
            Self::Provider => Self::Consumer,
            Self::Consumer => Self::Provider,
        }
    }
}

/// Identity of the application owning a window, for association and
/// presentation on the consumer side.
#[derive(Debug, Clone, PartialEq, Eq)]
pub struct AppInfo {
    pub name: String,
    /// Desktop-file style identifier, e.g. `org.gnome.TextEditor`.
    pub app_id: Option<String>,
    pub pid: Option<u32>,
    pub toolkit: Option<String>,
    pub toolkit_version: Option<String>,
}

fn same_text(text: &Option<String>) -> (copy: Option<String>)
    ensures
        copy == *text,
{
    match text {
        Some(s) => Some(s.clone()),
        None => None,
    }
}

impl AppInfo {
    pub fn copy(&self) -> (copy: Self)
        ensures
            copy == *self,
    {
        AppInfo {
            name: self.name.clone(),
            app_id: same_text(&self.app_id),
            pid: self.pid,
            toolkit: same_text(&self.toolkit),
            toolkit_version: same_text(&self.toolkit_version),
        }
    }
}

impl Default for AppInfo {
    fn default() -> (info: Self)
        ensures
            info.name@ == Seq::<char>::empty(),
            info.app_id is None,
            info.pid is None,
            info.toolkit is None,
            info.toolkit_version is None,
    {
        AppInfo {
            name: String::new(),
            app_id: None,
            pid: None,
            toolkit: None,
            toolkit_version: None,
        }
    }
}

/// The first message each peer sends on a new connection.
#[derive(Debug, Clone, PartialEq, Eq)]
pub struct Hello {
    /// Highest protocol version the peer supports. The session's version is the
    /// lower of the two peers'.
    pub version: u32,
    pub role: PeerRole,
    /// Codec names in preference order. The first entry in the provider's list
    /// that the consumer also supports wins.
    pub codecs: Vec<String>,
    /// Human-readable peer name, for diagnostics only.
    pub name: String,
}

/// A tree update, as the accessibility toolkit defines it; a session carries it
/// without looking inside.
#[verifier::external_type_specification]
#[verifier::external_body]
pub struct ExToolkitUpdate(ToolkitUpdate);

/// An action request, as the accessibility toolkit defines it; a session carries
/// it without looking inside.
#[verifier::external_type_specification]
#[verifier::external_body]
pub struct ExActionRequest(accesskit::ActionRequest);

#[allow(inconsistent_fields)]
#[derive(Debug)]
pub enum Message {
    Hello(Hello),
    Goodbye { reason: String },
    WindowAdded { window: WindowId, title: String, app: AppInfo },
    WindowRemoved { window: WindowId },
    TreeUpdate { window: WindowId, update: ToolkitUpdate },
    /// Which toplevel has keyboard focus; `None` when no exported window is
    /// focused. Focus within a window travels in its tree updates.
    FocusChanged { window: Option<WindowId> },
    Action { window: WindowId, request: ActionRequest },
    Ping { seq: u64 },
    Pong { seq: u64 },
}

/// The short name of a message's variant.
pub open spec fn kind_of(message: Message) -> Seq<char> {
    match message {
        Message::Hello(_) => "hello"@,
        Message::Goodbye { .. } => "goodbye"@,
        Message::WindowAdded { .. } => "windowAdded"@,
        Message::WindowRemoved { .. } => "windowRemoved"@,
        Message::TreeUpdate { .. } => "treeUpdate"@,
        Message::FocusChanged { .. } => "focusChanged"@,
        Message::Action { .. } => "action"@,
        Message::Ping { .. } => "ping"@,
        Message::Pong { .. } => "pong"@,
    }
}

impl Message {
    /// A short, stable name for the variant, for bounded diagnostics.
    pub fn kind(&self) -> (kind: &'static str)
        ensures
            kind@ == kind_of(*self),
    {
        match self {
            Self::Hello(_) => "hello",
            Self::Goodbye { .. } => "goodbye",
            Self::WindowAdded { .. } => "windowAdded",
            Self::WindowRemoved { .. } => "windowRemoved",
            Self::TreeUpdate { .. } => "treeUpdate",
            Self::FocusChanged { .. } => "focusChanged",
            Self::Action { .. } => "action",
            Self::Ping { .. } => "ping",
            Self::Pong { .. } => "pong",
        }
    }
}

/// The two roles talk to each other.
pub proof fn law_roles_are_opposite(role: PeerRole)
    ensures
        other_role(role) != role,
        other_role(other_role(role)) == role,
{
}

/// The kind of a message tells which it is.
pub proof fn law_kinds_tell_messages_apart(message: Message)
    ensures
        kind_of(message) == "hello"@ <==> message is Hello,
        kind_of(message) == "goodbye"@ <==> message is Goodbye,
        kind_of(message) == "windowAdded"@ <==> message is WindowAdded,
        kind_of(message) == "windowRemoved"@ <==> message is WindowRemoved,
        kind_of(message) == "treeUpdate"@ <==> message is TreeUpdate,
        kind_of(message) == "focusChanged"@ <==> message is FocusChanged,
        kind_of(message) == "action"@ <==> message is Action,
        kind_of(message) == "ping"@ <==> message is Ping,
        kind_of(message) == "pong"@ <==> message is Pong,
{
    reveal_strlit("hello");
    reveal_strlit("goodbye");
    reveal_strlit("windowAdded");
    reveal_strlit("windowRemoved");
    reveal_strlit("treeUpdate");
    reveal_strlit("focusChanged");
    reveal_strlit("action");
    reveal_strlit("ping");
    reveal_strlit("pong");
    assert("hello"@.len() == 5 && "goodbye"@.len() == 7 && "windowAdded"@.len() == 11
        && "windowRemoved"@.len() == 13 && "treeUpdate"@.len() == 10 && "focusChanged"@.len() == 12
        && "action"@.len() == 6 && "ping"@.len() == 4 && "pong"@.len() == 4);
    assert("ping"@[1] == 'i' && "pong"@[1] == 'o');
}

} // verus!
