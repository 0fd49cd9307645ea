//! Discovering applications and their windows, from what was read of them.
//!
//! Each read is a call into the application, and one that does not answer would
//! hold up everything else. So only applications that can own an ordinary window
//! are read at all, each under a bounded wait.

use crate::ax::attr::Status;
use crate::ax::element::ElementKey;
use crate::ax::role::is_window;
use crate::messages::AppInfo;
use crate::tree::text_view;
use vstd::prelude::*;

verus! {

/// A running application that may publish an accessibility tree.
pub struct App {
    pub info: AppInfo,
    pub pid: i32,
    /// Whether it is the frontmost one, so that one of its windows has focus.
    pub active: bool,
}

/// What the workspace says of a running application.
pub struct AppReads {
    pub pid: i32,
    /// Whether it has windows of its own, unlike an agent or a daemon.
    pub regular: bool,
    /// Whether reads of it could be bounded: one that is gone already fails here.
    pub bounded: bool,
    pub name: Option<String>,
    pub bundle_id: Option<String>,
    pub active: bool,
}

/// Whether an application is read at all.
pub open spec fn addressable(reads: AppReads) -> bool {
    reads.regular && reads.pid > 0 && reads.bounded
}

/// An application, if it can own a window that a user could be looking at. An
/// empty bundle identifier is none.
pub fn application(reads: AppReads) -> (app: Option<App>)
    ensures
        match app {
            Some(app) => {
                &&& addressable(reads)
                &&& app.pid == reads.pid
                &&& app.active == reads.active
                &&& app.info.name@ == (match reads.name {
                    Some(name) => name@,
                    None => Seq::empty(),
                })
                &&& app.info.app_id == (match reads.bundle_id {
                    Some(id) if id@.len() > 0 => Some(id),
                    _ => None,
                })
                &&& app.info.pid == Some(reads.pid as u32)
                &&& app.info.toolkit is None
                &&& app.info.toolkit_version is None
            },
            None => !addressable(reads),
        },
{
    if !reads.regular || reads.pid <= 0 || !reads.bounded {
        return None;
    }
    let name: String = match reads.name {
        Some(name) => name,
        None => String::new(),
    };
    let app_id: Option<String> = match reads.bundle_id {
        Some(id) => if id.as_str().unicode_len() > 0 {
            Some(id)
        } else {
            None
        },
        None => None,
    };
    Some(
        App {
            info: AppInfo {
                name,
                app_id,
                pid: Some(reads.pid as u32),
                toolkit: None,
                toolkit_version: None,
            },
            pid: reads.pid,
            active: reads.active,
        },
    )
}

/// The window system's own number for a window, from what the call for it gave.
/// Zero comes with success for some elements, and would be a false match.
pub fn window_id(status: Status, id: u32) -> (found: Option<u64>)
    ensures
        found == (if status == Status::Success && id != 0 {
            Some(id as u64)
        } else {
            None
        }),
{
    if status == Status::Success && id != 0 {
        Some(id as u64)
    } else {
        None
    }
}

/// What was read of one entry of an application's list of windows.
pub struct WindowReads {
    pub key: ElementKey,
    pub role: Option<String>,
    pub title: Option<String>,
    pub subrole: Option<String>,
    pub native_window_id: Option<u64>,
}

/// A toplevel window discovered on an application.
pub struct Window {
    pub key: ElementKey,
    pub title: String,
    /// What tells a dialog or a floating window from a standard one.
    pub subrole: Option<String>,
    pub app: AppInfo,
    /// The window system's own number, where it is known.
    pub native_window_id: Option<u64>,
    /// Whether this window holds keyboard focus.
    pub active: bool,
}

/// Whether an entry is a window. The list is not exclusively windows: the desktop
/// stands there too, as a scroll area.
pub open spec fn real_window(reads: WindowReads) -> bool {
    text_view(reads.role) == Some("AXWindow"@)
}

/// Whether a window is what was read, with what is known of its application. One
/// that has neither a title nor a number is a window all the same.
pub open spec fn window_from(
    window: Window,
    app: App,
    focused: Option<ElementKey>,
    reads: WindowReads,
) -> bool {
    &&& window.key == reads.key
    &&& window.title@ == (match reads.title {
        Some(title) => title@,
        None => Seq::empty(),
    })
    &&& window.subrole == reads.subrole
    &&& window.app == app.info
    &&& window.native_window_id == reads.native_window_id
    &&& window.active == (app.active && focused == Some(reads.key))
}

/// Those of the entries that are windows, in order.
pub open spec fn real_windows(reads: Seq<WindowReads>) -> Seq<WindowReads> {
    reads.filter(|r: WindowReads| real_window(r))
}

/// The windows of an application, from what was read of its list of windows and of
/// its focused one; in the background it has none that is focused.
pub fn windows_of(app: &App, focused: Option<ElementKey>, reads: Vec<WindowReads>) -> (windows: Vec<
    Window,
>)
    ensures
        windows@.len() == real_windows(reads@).len(),
        forall|i: int|
            0 <= i < windows@.len() ==> window_from(
                #[trigger] windows@[i],
                *app,
                focused,
                real_windows(reads@)[i],
            ),
{
    let ghost all = reads@;
    let ghost fits = |r: WindowReads| real_window(r);
    let mut windows: Vec<Window> = Vec::new();
    proof {
        assert(all.take(0) =~= Seq::<WindowReads>::empty());
        reveal(Seq::filter);
    }
    for entry in rest: reads.into_iter()
        invariant
            rest.seq() == all,
            fits == (|r: WindowReads| real_window(r)),
            windows@.len() == all.take(rest.index()).filter(fits).len(),
            forall|i: int|
                0 <= i < windows@.len() ==> window_from(
                    #[trigger] windows@[i],
                    *app,
                    focused,
                    all.take(rest.index()).filter(fits)[i],
                ),
    {
        proof {
            let n = rest.index();
            reveal(Seq::filter);
            assert(all.take(n + 1).drop_last() =~= all.take(n));
            assert(all.take(n + 1).last() == entry);
        }
        let WindowReads { key, role, title, subrole, native_window_id } = entry;
        let window: bool = match &role {
            Some(role) => is_window(role.as_str()),
            None => false,
        };
        if window {
            let title: String = match title {
                Some(title) => title,
                None => String::new(),
            };
            let active: bool = match focused {
                Some(focused) => app.active && focused == key,
                None => false,
            };
            windows.push(
                Window { key, title, subrole, app: app.info.copy(), native_window_id, active },
            );
        }
    }
    assert(all.take(all.len() as int) =~= all);
    windows
}

/// An application is read if it has windows of its own, is a process, and can be read in
/// bounded time; nothing else about it matters.
pub proof fn law_what_is_read_of_the_running(reads: AppReads, other: AppReads)
    ensures
        addressable(reads) ==> reads.regular && reads.pid > 0 && reads.bounded,
        reads.regular && reads.bounded && reads.pid >= 1 ==> addressable(reads),
        other.regular == reads.regular && other.bounded == reads.bounded && other.pid == reads.pid
            ==> addressable(other) == addressable(reads),
{
}

/// Every entry that is a window is discovered, in its order, and nothing else is: with its
/// own element, title and number, under its application. The one that is focused is active
/// if its application is.
pub proof fn law_every_window_is_discovered(
    app: &App,
    focused: Option<ElementKey>,
    reads: Vec<WindowReads>,
    windows: Vec<Window>,
    i: int,
)
    requires
        call_ensures(windows_of, (app, focused, reads), windows),
    ensures
        ({
            let own = reads@.filter(
                |r: WindowReads| r.role is Some && r.role->0@ == "AXWindow"@,
            );
            &&& windows@.len() == own.len()
            &&& 0 <= i < own.len() ==> {
                let window = windows@[i];
                &&& window.key == own[i].key
                &&& own[i].title is Some ==> window.title@ == own[i].title->0@
                &&& own[i].title is None ==> window.title@.len() == 0
                &&& window.subrole == own[i].subrole
                &&& window.native_window_id == own[i].native_window_id
                &&& window.app == app.info
                &&& window.active <==> app.active && focused == Some(own[i].key)
            }
        }),
{
    assert((|r: WindowReads| real_window(r)) =~= (|r: WindowReads|
        r.role is Some && r.role->0@ == "AXWindow"@));
    if 0 <= i < windows@.len() {
        assert(window_from(windows@[i], *app, focused, real_windows(reads@)[i]));
    }
}

} // verus!
