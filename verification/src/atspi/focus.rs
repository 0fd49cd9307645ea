//! Window-level focus tracking.
//!
//! Bookkeeping of which toplevel holds session focus. It deduplicates and orders
//! the window-level focus changes to emit, so that redundant activations produce
//! no traffic and a removed window is never focused: a daemon closes the
//! connection if asked to focus a window that was not announced, and a consumer
//! clears its own focus when a focused window is removed.

use crate::messages::WindowId;
use vstd::prelude::*;

verus! {

/// Tracks the focused toplevel, and decides when a change is to be emitted.
#[derive(Debug)]
pub struct FocusTracker {
    current: Option<WindowId>,
}

impl View for FocusTracker {
    type V = Option<WindowId>;

    closed spec fn view(&self) -> Option<WindowId> {
        self.current
    }
}

impl FocusTracker {
    /// Starts tracking with a known initial focus, so that the first activation
    /// of the window that has focus already is deduplicated.
    pub fn new(initial: Option<WindowId>) -> (tracker: Self)
        ensures
            tracker@ == initial,
    {
        Self { current: initial }
    }

    /// The window that holds focus, if one does.
    pub fn current(&self) -> (window: Option<WindowId>)
        ensures
            window == self@,
    {
        self.current
    }

    /// Records that `window` gained focus. Returns the focus to emit, or `None`
    /// when `window` already held it.
    pub fn focus(&mut self, window: WindowId) -> (change: Option<Option<WindowId>>)
        ensures
            final(self)@ == Some(window),
            change == (if old(self)@ == Some(window) {
                None
            } else {
                Some(Some(window))
            }),
    {
        if self.current == Some(window) {
            return None;
        }
        self.current = Some(window);
        Some(self.current)
    }

    /// Records that `window` was deactivated. Clears focus, and returns the
    /// cleared focus to emit, only if `window` held it: a window switch may
    /// activate the one before it deactivates the other.
    pub fn deactivate(&mut self, window: WindowId) -> (change: Option<Option<WindowId>>)
        ensures
            final(self)@ == (if old(self)@ == Some(window) {
                None
            } else {
                old(self)@
            }),
            change == (if old(self)@ == Some(window) {
                Some(None::<WindowId>)
            } else {
                None
            }),
    {
        if self.current != Some(window) {
            return None;
        }
        self.current = None;
        Some(self.current)
    }

    /// Forgets `window` because it was removed. Never emits: clearing focus for
    /// a window that is gone is the consumer's part.
    pub fn remove(&mut self, window: WindowId)
        ensures
            final(self)@ == (if old(self)@ == Some(window) {
                None
            } else {
                old(self)@
            }),
            final(self)@ != Some(window),
    {
        if self.current == Some(window) {
            self.current = None;
        }
    }
}

impl Default for FocusTracker {
    fn default() -> (tracker: Self)
        ensures
            tracker@ is None,
    {
        Self::new(None)
    }
}

} // verus!
