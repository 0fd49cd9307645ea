//! What a tree source hands on: windows that come and go, and what changes in
//! them.

use crate::messages::AppInfo;
use crate::messages::WindowId;
use crate::tree::TreeUpdate;
use crate::tree::TreeUpdateView;
use vstd::prelude::*;

verus! {

/// A toplevel window, as it is announced.
#[derive(Debug, Clone, PartialEq, Eq)]
pub struct WindowDescriptor {
    pub id: WindowId,
    pub title: String,
    pub app: AppInfo,
    /// The window system's own number for the window, where it has one.
    pub native_window_id: Option<u64>,
}

/// Something a source reports.
#[derive(Debug)]
pub enum SourceEvent {
    TreeUpdate { window: WindowId, update: TreeUpdate },
    FocusChanged(Option<WindowId>),
    WindowRemoved(WindowId),
    WindowAdded { descriptor: WindowDescriptor, tree: TreeUpdate },
}

/// The content of an event.
#[verifier::ext_equal]
pub enum SourceEventView {
    TreeUpdate { window: WindowId, update: TreeUpdateView },
    FocusChanged(Option<WindowId>),
    WindowRemoved(WindowId),
    WindowAdded { descriptor: WindowDescriptor, tree: TreeUpdateView },
}

impl View for SourceEvent {
    type V = SourceEventView;

    open spec fn view(&self) -> SourceEventView {
        match self {
            SourceEvent::TreeUpdate { window, update } => SourceEventView::TreeUpdate {
                window: *window,
                update: update@,
            },
            SourceEvent::FocusChanged(window) => SourceEventView::FocusChanged(*window),
            SourceEvent::WindowRemoved(window) => SourceEventView::WindowRemoved(*window),
            SourceEvent::WindowAdded { descriptor, tree } => SourceEventView::WindowAdded {
                descriptor: *descriptor,
                tree: tree@,
            },
        }
    }
}

/// The contents of a list of events.
pub open spec fn event_views(events: Seq<SourceEvent>) -> Seq<SourceEventView> {
    events.map_values(|e: SourceEvent| e@)
}

pub proof fn lemma_event_push(events: Seq<SourceEvent>, event: SourceEvent)
    ensures
        event_views(events.push(event)) == event_views(events).push(event@),
{
    assert(event_views(events.push(event)) =~= event_views(events).push(event@));
}

} // verus!
