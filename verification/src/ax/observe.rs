//! Which notifications are asked for, and where each one routes.
//!
//! Structure, semantics and focus are separate routes, and conflating them makes
//! a mirror either slow or wrong: a structural change invalidates the shape of a
//! window, so it ends in one debounced walk; a semantic change alters the
//! properties of one node; focus moves without changing anything else.

use crate::search::find_first;
use crate::search::first_match;
use crate::search::law_the_first_is_found;
use crate::search::lemma_found;
use crate::search::lemma_not_found;
use crate::strings::same;
use vstd::prelude::*;

verus! {

/// What a notification means for the mirror.
#[derive(Debug, Clone, Copy, PartialEq, Eq, PartialOrd, Ord, Structural)]
pub enum Route {
    /// The window's shape changed: it is to be walked again, debounced.
    Rewalk,
    /// One node's properties changed: that node is to be read again.
    Refresh,
    /// Keyboard focus moved. The focused element comes with the notification.
    Focus,
    /// A window appeared or vanished.
    Lifecycle,
    /// Deliberately ignored.
    Ignore,
}

/// Every notification that is asked for, and where it routes. Asking costs a call
/// per application and notification, so this is the whole subscription.
pub open spec fn subscribed() -> Seq<(Seq<char>, Route)> {
    seq![
        ("AXWindowCreated"@, Route::Lifecycle),
        ("AXUIElementDestroyed"@, Route::Lifecycle),
        ("AXDrawerCreated"@, Route::Lifecycle),
        ("AXSheetCreated"@, Route::Lifecycle),
        ("AXFocusedUIElementChanged"@, Route::Focus),
        ("AXFocusedWindowChanged"@, Route::Focus),
        ("AXMainWindowChanged"@, Route::Focus),
        ("AXApplicationActivated"@, Route::Focus),
        ("AXApplicationDeactivated"@, Route::Focus),
        ("AXCreated"@, Route::Rewalk),
        ("AXLayoutChanged"@, Route::Rewalk),
        ("AXRowCountChanged"@, Route::Rewalk),
        ("AXRowExpanded"@, Route::Rewalk),
        ("AXRowCollapsed"@, Route::Rewalk),
        ("AXMenuOpened"@, Route::Rewalk),
        ("AXMenuClosed"@, Route::Rewalk),
        ("AXValueChanged"@, Route::Refresh),
        ("AXTitleChanged"@, Route::Refresh),
        ("AXSelectedChildrenChanged"@, Route::Refresh),
        ("AXSelectedRowsChanged"@, Route::Refresh),
        ("AXSelectedCellsChanged"@, Route::Refresh),
        ("AXElementBusyChanged"@, Route::Refresh),
    ]
}

/// See [`subscribed`]. Moves and resizes are absent on purpose: they come with
/// every drag and scroll, and bounds are read by the walk.
pub fn subscriptions() -> (table: Vec<(&'static str, Route)>)
    ensures
        table@.len() == subscribed().len(),
        forall|i: int|
            0 <= i < table@.len() ==> (#[trigger] table@[i]).0@ == subscribed()[i].0 && table@[i].1
                == subscribed()[i].1,
{
    let mut table: Vec<(&'static str, Route)> = Vec::new();
    table.push(("AXWindowCreated", Route::Lifecycle));
    table.push(("AXUIElementDestroyed", Route::Lifecycle));
    table.push(("AXDrawerCreated", Route::Lifecycle));
    table.push(("AXSheetCreated", Route::Lifecycle));
    table.push(("AXFocusedUIElementChanged", Route::Focus));
    table.push(("AXFocusedWindowChanged", Route::Focus));
    table.push(("AXMainWindowChanged", Route::Focus));
    table.push(("AXApplicationActivated", Route::Focus));
    table.push(("AXApplicationDeactivated", Route::Focus));
    table.push(("AXCreated", Route::Rewalk));
    table.push(("AXLayoutChanged", Route::Rewalk));
    table.push(("AXRowCountChanged", Route::Rewalk));
    table.push(("AXRowExpanded", Route::Rewalk));
    table.push(("AXRowCollapsed", Route::Rewalk));
    table.push(("AXMenuOpened", Route::Rewalk));
    table.push(("AXMenuClosed", Route::Rewalk));
    table.push(("AXValueChanged", Route::Refresh));
    table.push(("AXTitleChanged", Route::Refresh));
    table.push(("AXSelectedChildrenChanged", Route::Refresh));
    table.push(("AXSelectedRowsChanged", Route::Refresh));
    table.push(("AXSelectedCellsChanged", Route::Refresh));
    table.push(("AXElementBusyChanged", Route::Refresh));
    table
}

/// Whether an entry of the subscription has this name.
pub open spec fn named(name: Seq<char>) -> spec_fn((Seq<char>, Route)) -> bool {
    |entry: (Seq<char>, Route)| entry.0 == name
}

/// Where a notification routes: as subscribed, and nowhere if it was not.
pub open spec fn routed(name: Seq<char>) -> Route {
    match find_first(subscribed(), named(name)) {
        Some(i) => subscribed()[i].1,
        None => Route::Ignore,
    }
}

/// Where a notification routes; [`Route::Ignore`] for one that was not asked for.
pub fn route(notification: &str) -> (route: Route)
    ensures
        route == routed(notification@),
{
    let table: Vec<(&'static str, Route)> = subscriptions();
    let ghost fits = named(notification@);
    for i in 0..table.len()
        invariant
            fits == named(notification@),
            table@.len() == subscribed().len(),
            forall|i: int|
                0 <= i < table@.len() ==> (#[trigger] table@[i]).0@ == subscribed()[i].0
                    && table@[i].1 == subscribed()[i].1,
            forall|j: int| 0 <= j < i ==> !fits(#[trigger] subscribed()[j]),
    {
        let entry: (&'static str, Route) = table[i];
        if same(entry.0, notification) {
            proof {
                assert(first_match(subscribed(), fits, i as int));
                lemma_found(subscribed(), fits, i as int);
            }
            return entry.1;
        }
    }
    proof {
        lemma_not_found(subscribed(), fits);
    }
    Route::Ignore
}

/// The names of the subscription, told apart by length and by two of their
/// characters.
spec fn mark(name: Seq<char>) -> (nat, char, char) {
    (name.len(), name[2], name[6])
}

/// No notification is listed twice, and each is a notification of the interface
/// that routes somewhere: exactly where the subscription says.
pub proof fn law_every_subscription_has_its_own_route(i: int, j: int)
    requires
        0 <= i < subscribed().len(),
        0 <= j < subscribed().len(),
    ensures
        i != j ==> subscribed()[i].0 != subscribed()[j].0,
        subscribed()[i].0[0] == 'A' && subscribed()[i].0[1] == 'X',
        subscribed()[i].1 != Route::Ignore,
        routed(subscribed()[i].0) == subscribed()[i].1,
{
    reveal_strlit("AXWindowCreated");
    reveal_strlit("AXUIElementDestroyed");
    reveal_strlit("AXDrawerCreated");
    reveal_strlit("AXSheetCreated");
    reveal_strlit("AXFocusedUIElementChanged");
    reveal_strlit("AXFocusedWindowChanged");
    reveal_strlit("AXMainWindowChanged");
    reveal_strlit("AXApplicationActivated");
    reveal_strlit("AXApplicationDeactivated");
    reveal_strlit("AXCreated");
    reveal_strlit("AXLayoutChanged");
    reveal_strlit("AXRowCountChanged");
    reveal_strlit("AXRowExpanded");
    reveal_strlit("AXRowCollapsed");
    reveal_strlit("AXMenuOpened");
    reveal_strlit("AXMenuClosed");
    reveal_strlit("AXValueChanged");
    reveal_strlit("AXTitleChanged");
    reveal_strlit("AXSelectedChildrenChanged");
    reveal_strlit("AXSelectedRowsChanged");
    reveal_strlit("AXSelectedCellsChanged");
    reveal_strlit("AXElementBusyChanged");
    assert forall|a: int, b: int| 0 <= a < b < subscribed().len() implies mark(
        subscribed()[a].0,
    ) != mark(subscribed()[b].0) by {
    }
    let fits = named(subscribed()[i].0);
    assert(first_match(subscribed(), fits, i)) by {
        assert forall|k: int| 0 <= k < i implies !fits(#[trigger] subscribed()[k]) by {
            assert(mark(subscribed()[k].0) != mark(subscribed()[i].0));
        }
    }
    lemma_found(subscribed(), fits, i);
    if i < j {
        assert(mark(subscribed()[i].0) != mark(subscribed()[j].0));
    }
    if j < i {
        assert(mark(subscribed()[j].0) != mark(subscribed()[i].0));
    }
}

/// Which notifications mean what: each route is taken by these and by no other, and what is
/// not asked for routes nowhere.
pub proof fn law_each_route_has_its_notifications(name: Seq<char>)
    ensures
        routed(name) == Route::Lifecycle ==> name == "AXWindowCreated"@
            || name == "AXUIElementDestroyed"@ || name == "AXDrawerCreated"@
            || name == "AXSheetCreated"@,
        routed(name) == Route::Focus ==> name == "AXFocusedUIElementChanged"@
            || name == "AXFocusedWindowChanged"@ || name == "AXMainWindowChanged"@
            || name == "AXApplicationActivated"@ || name == "AXApplicationDeactivated"@,
        routed(name) == Route::Rewalk ==> name == "AXCreated"@ || name == "AXLayoutChanged"@
            || name == "AXRowCountChanged"@ || name == "AXRowExpanded"@
            || name == "AXRowCollapsed"@ || name == "AXMenuOpened"@ || name == "AXMenuClosed"@,
        routed(name) == Route::Refresh ==> name == "AXValueChanged"@ || name == "AXTitleChanged"@
            || name == "AXSelectedChildrenChanged"@ || name == "AXSelectedRowsChanged"@
            || name == "AXSelectedCellsChanged"@ || name == "AXElementBusyChanged"@,
        routed(name) == Route::Ignore <==> !seq![
            "AXWindowCreated"@,
            "AXUIElementDestroyed"@,
            "AXDrawerCreated"@,
            "AXSheetCreated"@,
            "AXFocusedUIElementChanged"@,
            "AXFocusedWindowChanged"@,
            "AXMainWindowChanged"@,
            "AXApplicationActivated"@,
            "AXApplicationDeactivated"@,
            "AXCreated"@,
            "AXLayoutChanged"@,
            "AXRowCountChanged"@,
            "AXRowExpanded"@,
            "AXRowCollapsed"@,
            "AXMenuOpened"@,
            "AXMenuClosed"@,
            "AXValueChanged"@,
            "AXTitleChanged"@,
            "AXSelectedChildrenChanged"@,
            "AXSelectedRowsChanged"@,
            "AXSelectedCellsChanged"@,
            "AXElementBusyChanged"@,
        ].contains(name),
{
    let all = subscribed();
    let names = seq![
        "AXWindowCreated"@,
        "AXUIElementDestroyed"@,
        "AXDrawerCreated"@,
        "AXSheetCreated"@,
        "AXFocusedUIElementChanged"@,
        "AXFocusedWindowChanged"@,
        "AXMainWindowChanged"@,
        "AXApplicationActivated"@,
        "AXApplicationDeactivated"@,
        "AXCreated"@,
        "AXLayoutChanged"@,
        "AXRowCountChanged"@,
        "AXRowExpanded"@,
        "AXRowCollapsed"@,
        "AXMenuOpened"@,
        "AXMenuClosed"@,
        "AXValueChanged"@,
        "AXTitleChanged"@,
        "AXSelectedChildrenChanged"@,
        "AXSelectedRowsChanged"@,
        "AXSelectedCellsChanged"@,
        "AXElementBusyChanged"@,
    ];
    assert forall|i: int| 0 <= i < names.len() implies #[trigger] names[i] == all[i].0 by {}
    law_the_first_is_found(all, named(name), 0);
    match find_first(all, named(name)) {
        Some(i) => {
            assert(names[i] == name);
            law_every_subscription_has_its_own_route(i, i);
        },
        None => {
            if names.contains(name) {
                let i = names.index_of(name);
                assert(all[i].0 == name);
                law_the_first_is_found(all, named(name), i);
            }
        },
    }
}

} // verus!
