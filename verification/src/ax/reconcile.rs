//! Windows that come and go, and actions on those that are there.

use crate::atspi::coalesce::Pending;
use crate::atspi::focus::FocusTracker;
use crate::ax::delta::unsent;
use crate::ax::delta::EmittedTree;
use crate::ax::discovery::Window;
use crate::ax::element::ElementKey;
use crate::ax::element::ElementSet;
use crate::ax::element::NodeIdMap;
use crate::ax::element::Owner;
use crate::ax::node::AxNode;
use crate::ax::shape::shapes_of;
use crate::ax::shape::ShapeMap;
use crate::ax::source::due_after;
use crate::ax::source::has_window;
use crate::ax::source::lemma_same_ids;
use crate::ax::source::lemma_window_found;
use crate::ax::source::noted_at;
use crate::ax::source::sound;
use crate::ax::source::window_views;
use crate::ax::source::with_id;
use crate::ax::source::with_key;
use crate::ax::source::Desktop;
use crate::ax::source::DesktopView;
use crate::ax::source::WindowState;
use crate::ax::source::WindowView;
use crate::ax::source::RECONCILE_INTERVAL;
use crate::ax::source::REWALK_MAX_DELAY;
use crate::ax::source::REWALK_QUIET;
use crate::ax::source::SETTLE_AFTER_ACTION;
use crate::ax::walk::build_window_update;
use crate::ax::walk::range_fits;
use crate::ax::walk::window_emission;
use crate::ax::walk::window_update;
use crate::messages::WindowId;
use crate::search::find_first;
use crate::search::first_match;
use crate::search::law_the_first_is_found;
use crate::search::lemma_found;
use crate::search::lemma_not_found;
use crate::source::WindowDescriptor;
use crate::tree::NodeId;
use crate::tree::TreeUpdate;
use crate::tree::TreeUpdateView;
use vstd::prelude::*;

verus! {

// ---------------------------------------------------------------- when

/// When the windows are discovered again, wide enough for any time and the
/// interval after it.
pub struct ReconcileClock {
    pub next: u128,
}

impl ReconcileClock {
    /// The first time is one interval from `now`.
    pub fn new(now: u64) -> (clock: Self)
        ensures
            clock.next == now + RECONCILE_INTERVAL,
    {
        ReconcileClock { next: now as u128 + RECONCILE_INTERVAL as u128 }
    }

    /// Whether it is time; if it is, the next time is one interval from `now`.
    pub fn tick(&mut self, now: u64) -> (due: bool)
        ensures
            due == (old(self).next <= now),
            final(self).next == (if due {
                (now + RECONCILE_INTERVAL) as u128
            } else {
                old(self).next
            }),
    {
        if (now as u128) < self.next {
            return false;
        }
        self.next = now as u128 + RECONCILE_INTERVAL as u128;
        true
    }
}

// ---------------------------------------------------------------- windows that go

/// The elements of discovered windows.
pub open spec fn window_keys(windows: Seq<Window>) -> Seq<ElementKey> {
    windows.map_values(|w: Window| w.key)
}

/// Those of the windows, in order, whose elements are still there.
pub open spec fn remaining(windows: Seq<WindowView>, present: Set<ElementKey>) -> Seq<WindowView>
    decreases windows.len(),
{
    if windows.len() == 0 {
        Seq::empty()
    } else {
        let before = remaining(windows.drop_last(), present);
        if present.contains(windows.last().key) {
            before.push(windows.last())
        } else {
            before
        }
    }
}

/// The ids, in order, of the windows whose elements are not there any more.
pub open spec fn gone(windows: Seq<WindowView>, present: Set<ElementKey>) -> Seq<WindowId>
    decreases windows.len(),
{
    if windows.len() == 0 {
        Seq::empty()
    } else {
        let before = gone(windows.drop_last(), present);
        if present.contains(windows.last().key) {
            before
        } else {
            before.push(windows.last().id)
        }
    }
}

/// Focus, unless it is on a window that is gone.
pub open spec fn kept_focus(focus: Option<WindowId>, gone: Seq<WindowId>) -> Option<WindowId> {
    match focus {
        Some(id) if gone.contains(id) => None,
        _ => focus,
    }
}

/// The walks that are due, except those of windows that are gone.
pub open spec fn kept_pending(pending: Map<WindowId, Pending>, gone: Seq<WindowId>) -> Map<
    WindowId,
    Pending,
>
    decreases gone.len(),
{
    if gone.len() == 0 {
        pending
    } else {
        kept_pending(pending, gone.drop_last()).remove(gone.last())
    }
}

/// A desktop without the windows whose elements are not there any more.
pub open spec fn retired(desktop: DesktopView, present: Set<ElementKey>) -> DesktopView {
    let gone = gone(desktop.windows, present);
    DesktopView {
        windows: remaining(desktop.windows, present),
        focus: kept_focus(desktop.focus, gone),
        pending: kept_pending(desktop.pending, gone),
        ..desktop
    }
}

/// What is due after the windows were discovered again: the walk of each active
/// window that is mirrored, since scrolling it gives no notification.
pub open spec fn kept_fresh(
    pending: Map<WindowId, Pending>,
    windows: Seq<WindowView>,
    discovered: Seq<Window>,
    now: u64,
) -> Map<WindowId, Pending>
    decreases discovered.len(),
{
    if discovered.len() == 0 {
        pending
    } else {
        let before = kept_fresh(pending, windows, discovered.drop_last(), now);
        match find_first(windows, with_key(discovered.last().key)) {
            Some(i) if discovered.last().active => noted_at(before, windows[i].id, now),
            _ => before,
        }
    }
}

/// The indices, in order, of the discovered windows that are not mirrored.
pub open spec fn unknown(windows: Seq<WindowView>, discovered: Seq<Window>) -> Seq<usize>
    decreases discovered.len(),
{
    if discovered.len() == 0 {
        Seq::empty()
    } else {
        let before = unknown(windows, discovered.drop_last());
        if find_first(windows, with_key(discovered.last().key)) is None {
            before.push((discovered.len() - 1) as usize)
        } else {
            before
        }
    }
}

/// A desktop after the windows were discovered again, before the new ones are
/// admitted.
pub open spec fn reconciled(desktop: DesktopView, discovered: Seq<Window>, now: u64) -> DesktopView {
    let kept = retired(desktop, window_keys(discovered).to_set());
    DesktopView { pending: kept_fresh(kept.pending, kept.windows, discovered, now), ..kept }
}

proof fn lemma_pending_kept(pending: Map<WindowId, Pending>, gone: Seq<WindowId>)
    ensures
        forall|id: WindowId| #[trigger]
            kept_pending(pending, gone).contains_key(id) <==> pending.contains_key(id)
                && !gone.contains(id),
    decreases gone.len(),
{
    if gone.len() > 0 {
        let init = gone.drop_last();
        lemma_pending_kept(pending, init);
        assert forall|id: WindowId| #[trigger]
            kept_pending(pending, gone).contains_key(id) <==> pending.contains_key(id)
                && !gone.contains(id) by {
            let before = kept_pending(pending, init);
            assert(before.contains_key(id) <==> pending.contains_key(id) && !init.contains(id));
            if gone.contains(id) {
                let k = gone.index_of(id);
                if k < init.len() {
                    assert(init[k] == id);
                }
            }
            if init.contains(id) {
                let k = init.index_of(id);
                assert(gone[k] == id);
            }
            assert(gone[gone.len() - 1] == gone.last());
            assert(kept_pending(pending, gone) == before.remove(gone.last()));
        }
    }
}

/// A window is either gone or remains, by its element.
proof fn lemma_parted(windows: Seq<WindowView>, present: Set<ElementKey>)
    ensures
        forall|i: int|
            0 <= i < remaining(windows, present).len() ==> windows.contains(
                #[trigger] remaining(windows, present)[i],
            ) && present.contains(remaining(windows, present)[i].key),
        forall|i: int|
            0 <= i < windows.len() && present.contains((#[trigger] windows[i]).key) ==> remaining(
                windows,
                present,
            ).contains(windows[i]),
        forall|id: WindowId| #[trigger]
            gone(windows, present).contains(id) <==> exists|i: int|
                0 <= i < windows.len() && (#[trigger] windows[i]).id == id && !present.contains(
                    windows[i].key,
                ),
    decreases windows.len(),
{
    if windows.len() > 0 {
        let init = windows.drop_last();
        let n = windows.len() - 1;
        let (last, stay, left) = (windows.last(), remaining(init, present), gone(init, present));
        let (all, out) = (remaining(windows, present), gone(windows, present));
        lemma_parted(init, present);
        assert(windows[n] == last);
        assert forall|i: int| 0 <= i < all.len() implies windows.contains(#[trigger] all[i])
            && present.contains(all[i].key) by {
            if i < stay.len() {
                assert(all[i] == stay[i]);
                let j = init.index_of(stay[i]);
                assert(windows[j] == stay[i]);
            }
        }
        assert forall|i: int|
            0 <= i < windows.len() && present.contains(
                (#[trigger] windows[i]).key,
            ) implies all.contains(windows[i]) by {
            if i < n {
                assert(init[i] == windows[i]);
                let j = stay.index_of(init[i]);
                assert(all[j] == windows[i]);
            } else {
                assert(all[stay.len() as int] == last);
            }
        }
        assert forall|id: WindowId| #[trigger] out.contains(id) <==> exists|i: int|
            0 <= i < windows.len() && (#[trigger] windows[i]).id == id && !present.contains(
                windows[i].key,
            ) by {
            if out.contains(id) {
                let k = out.index_of(id);
                if k < left.len() {
                    assert(left[k] == id);
                    assert(left.contains(id));
                    let i = choose|i: int|
                        0 <= i < init.len() && (#[trigger] init[i]).id == id && !present.contains(
                            init[i].key,
                        );
                    assert(windows[i].id == id);
                }
            }
            if exists|i: int|
                0 <= i < windows.len() && (#[trigger] windows[i]).id == id && !present.contains(
                    windows[i].key,
                ) {
                let i = choose|i: int|
                    0 <= i < windows.len() && (#[trigger] windows[i]).id == id
                        && !present.contains(windows[i].key);
                if i < n {
                    assert(init[i].id == id);
                    assert(left.contains(id));
                    let k = left.index_of(id);
                    assert(out[k] == id);
                } else {
                    assert(out[left.len() as int] == id);
                }
            }
        }
    }
}

/// The windows that remain are in their old order.
proof fn lemma_remaining_ids(windows: Seq<WindowView>, present: Set<ElementKey>, next_id: u64)
    requires
        forall|i: int, j: int|
            0 <= i < j < windows.len() ==> (#[trigger] windows[i]).id != (#[trigger] windows[j]).id,
        forall|i: int| 0 <= i < windows.len() ==> (#[trigger] windows[i]).id.0 < next_id,
    ensures
        forall|i: int, j: int|
            0 <= i < j < remaining(windows, present).len() ==> (#[trigger] remaining(
                windows,
                present,
            )[i]).id != (#[trigger] remaining(windows, present)[j]).id,
        forall|i: int|
            0 <= i < remaining(windows, present).len() ==> (#[trigger] remaining(
                windows,
                present,
            )[i]).id.0 < next_id,
    decreases windows.len(),
{
    if windows.len() > 0 {
        let init = windows.drop_last();
        let n = windows.len() - 1;
        assert forall|i: int, j: int| 0 <= i < j < init.len() implies (#[trigger] init[i]).id != (
        #[trigger] init[j]).id by {
            assert(windows[i].id != windows[j].id);
        }
        assert forall|i: int| 0 <= i < init.len() implies (#[trigger] init[i]).id.0 < next_id by {
            assert(windows[i].id.0 < next_id);
        }
        lemma_remaining_ids(init, present, next_id);
        lemma_parted(init, present);
        let (stay, all) = (remaining(init, present), remaining(windows, present));
        assert forall|i: int| 0 <= i < stay.len() implies (#[trigger] stay[i]).id != windows[n].id by {
            let j = init.index_of(stay[i]);
            assert(init.contains(stay[i]));
            assert(windows[j] == stay[i]);
        }
        assert forall|i: int, j: int| 0 <= i < j < all.len() implies (#[trigger] all[i]).id != (
        #[trigger] all[j]).id by {
            assert(all[i] == stay[i]);
            if j < stay.len() {
                assert(all[j] == stay[j]);
            }
        }
        assert forall|i: int| 0 <= i < all.len() implies (#[trigger] all[i]).id.0 < next_id by {
            if i < stay.len() {
                assert(all[i] == stay[i]);
            } else {
                assert(windows[n].id.0 < next_id);
            }
        }
    }
}

/// Retiring windows leaves none of them behind, neither mirrored nor focused nor to
/// be walked; the others stay in order, and what was sound stays so.
pub proof fn law_retired_windows_are_gone(desktop: DesktopView, present: Set<ElementKey>)
    requires
        sound(desktop),
    ensures
        sound(retired(desktop, present)),
        forall|id: WindowId| #[trigger]
            gone(desktop.windows, present).contains(id) ==> !has_window(
                retired(desktop, present).windows,
                id,
            ) && retired(desktop, present).focus != Some(id) && !retired(
                desktop,
                present,
            ).pending.contains_key(id),
        forall|i: int|
            0 <= i < retired(desktop, present).windows.len() ==> desktop.windows.contains(
                #[trigger] retired(desktop, present).windows[i],
            ),
{
    let after = retired(desktop, present);
    let out = gone(desktop.windows, present);
    lemma_parted(desktop.windows, present);
    lemma_remaining_ids(desktop.windows, present, desktop.next_id);
    lemma_pending_kept(desktop.pending, out);
    assert forall|id: WindowId|
        has_window(desktop.windows, id) && !out.contains(id) implies #[trigger] has_window(
        after.windows,
        id,
    ) by {
        let i = choose|i: int| 0 <= i < desktop.windows.len() && (#[trigger] desktop.windows[i]).id
            == id;
        assert(present.contains(desktop.windows[i].key));
        let k = after.windows.index_of(desktop.windows[i]);
        assert(after.windows.contains(desktop.windows[i]));
        assert(after.windows[k].id == id);
    }
    assert forall|id: WindowId| #[trigger] after.pending.contains_key(id) implies has_window(
        after.windows,
        id,
    ) by {
        assert(desktop.pending.contains_key(id));
    }
    assert forall|id: WindowId| #[trigger] out.contains(id) implies !has_window(
        after.windows,
        id,
    ) && after.focus != Some(id) && !after.pending.contains_key(id) by {
        let i = choose|i: int|
            0 <= i < desktop.windows.len() && (#[trigger] desktop.windows[i]).id == id
                && !present.contains(desktop.windows[i].key);
        if has_window(after.windows, id) {
            let k = choose|k: int| 0 <= k < after.windows.len() && (#[trigger] after.windows[k]).id
                == id;
            let j = desktop.windows.index_of(after.windows[k]);
            assert(desktop.windows.contains(after.windows[k]));
            assert(desktop.windows[j] == after.windows[k]);
            assert(desktop.windows[j].id == desktop.windows[i].id);
        }
    }
}

/// The elements of the mirrored windows.
pub open spec fn mirrored_keys(windows: Seq<WindowView>) -> Seq<ElementKey> {
    windows.map_values(|w: WindowView| w.key)
}

/// When exactly the mirrored windows are discovered again, none is retired and
/// none is new.
pub proof fn law_the_same_windows_change_nothing(windows: Seq<WindowView>, discovered: Seq<Window>)
    requires
        mirrored_keys(windows).to_set() == window_keys(discovered).to_set(),
    ensures
        gone(windows, window_keys(discovered).to_set()) == Seq::<WindowId>::empty(),
        remaining(windows, window_keys(discovered).to_set()) == windows,
        unknown(windows, discovered) == Seq::<usize>::empty(),
{
    let present = window_keys(discovered).to_set();
    assert forall|i: int| 0 <= i < windows.len() implies present.contains(
        (#[trigger] windows[i]).key,
    ) by {
        assert(mirrored_keys(windows)[i] == windows[i].key);
        assert(mirrored_keys(windows).contains(windows[i].key));
        assert(mirrored_keys(windows).to_set().contains(windows[i].key));
    }
    lemma_all_remain(windows, present);
    assert forall|i: int| 0 <= i < discovered.len() implies find_first(
        windows,
        with_key((#[trigger] discovered[i]).key),
    ) is Some by {
        let key = discovered[i].key;
        assert(window_keys(discovered)[i] == key);
        assert(present.contains(key));
        assert(mirrored_keys(windows).to_set().contains(key));
        let k = mirrored_keys(windows).index_of(key);
        assert(mirrored_keys(windows)[k] == key);
        assert(windows[k].key == key);
        lemma_some_found(windows, with_key(key), k);
    }
    lemma_none_unknown(windows, discovered);
}

proof fn lemma_all_remain(windows: Seq<WindowView>, present: Set<ElementKey>)
    requires
        forall|i: int| 0 <= i < windows.len() ==> present.contains((#[trigger] windows[i]).key),
    ensures
        gone(windows, present) == Seq::<WindowId>::empty(),
        remaining(windows, present) == windows,
    decreases windows.len(),
{
    if windows.len() > 0 {
        let init = windows.drop_last();
        assert forall|i: int| 0 <= i < init.len() implies present.contains(
            (#[trigger] init[i]).key,
        ) by {
            assert(windows[i].key == init[i].key);
        }
        lemma_all_remain(init, present);
        assert(present.contains(windows[windows.len() - 1].key));
        assert(init.push(windows.last()) =~= windows);
    } else {
        assert(remaining(windows, present) =~= windows);
    }
}

/// Something that is there is found.
proof fn lemma_some_found(windows: Seq<WindowView>, fits: spec_fn(WindowView) -> bool, k: int)
    requires
        0 <= k < windows.len(),
        fits(windows[k]),
    ensures
        find_first(windows, fits) is Some,
    decreases k,
{
    if forall|j: int| 0 <= j < k ==> !fits(#[trigger] windows[j]) {
        crate::search::lemma_found(windows, fits, k);
    } else {
        let j = choose|j: int| 0 <= j < k && fits(#[trigger] windows[j]);
        lemma_some_found(windows, fits, j);
    }
}

proof fn lemma_none_unknown(windows: Seq<WindowView>, discovered: Seq<Window>)
    requires
        forall|i: int|
            0 <= i < discovered.len() ==> find_first(
                windows,
                with_key((#[trigger] discovered[i]).key),
            ) is Some,
    ensures
        unknown(windows, discovered) == Seq::<usize>::empty(),
    decreases discovered.len(),
{
    if discovered.len() > 0 {
        let init = discovered.drop_last();
        assert forall|i: int| 0 <= i < init.len() implies find_first(
            windows,
            with_key((#[trigger] init[i]).key),
        ) is Some by {
            assert(discovered[i].key == init[i].key);
        }
        lemma_none_unknown(windows, init);
        assert(find_first(windows, with_key(discovered[discovered.len() - 1].key)) is Some);
    }
}

/// What came of discovering the windows again.
pub struct Reconciled {
    /// The windows to report as removed.
    pub removed: Vec<WindowId>,
    /// Which of the discovered windows are new, by index.
    pub added: Vec<usize>,
}

impl Desktop {
    /// Drops the windows whose elements are not there any more, and returns their
    /// ids. No focus change is reported for them: the consumer clears its own.
    pub fn retire(&mut self, present: &ElementSet) -> (removed: Vec<WindowId>)
        requires
            old(self).wf(),
        ensures
            final(self).wf(),
            removed@ == gone(old(self)@.windows, present@),
            final(self)@ == retired(old(self)@, present@),
    {
        let ghost first = self@;
        let ghost states = self.windows@;
        let mut windows: Vec<WindowState> = Vec::new();
        std::mem::swap(&mut windows, &mut self.windows);
        let mut kept: Vec<WindowState> = Vec::new();
        let mut removed: Vec<WindowId> = Vec::new();
        assert(window_views(kept@) =~= Seq::<WindowView>::empty());
        assert(first.windows.take(0) =~= Seq::<WindowView>::empty());
        for state in rest: windows.into_iter()
            invariant
                rest.seq() == states,
                first.windows == window_views(states),
                forall|i: int| 0 <= i < states.len() ==> (#[trigger] states[i]).ids.wf(),
                forall|i: int| 0 <= i < kept@.len() ==> (#[trigger] kept@[i]).ids.wf(),
                window_views(kept@) == remaining(first.windows.take(rest.index()), present@),
                removed@ == gone(first.windows.take(rest.index()), present@),
                self.focus@ == kept_focus(first.focus, removed@),
                self.pending@ == kept_pending(first.pending, removed@),
                self.pending.wf(),
                self.pending.quiet_time() == REWALK_QUIET,
                self.pending.longest_delay() == REWALK_MAX_DELAY,
                self.next_id == first.next_id,
                self.observed@ == first.observed,
        {
            proof {
                let n = rest.index();
                let more = first.windows.take(n + 1);
                assert(more.drop_last() =~= first.windows.take(n));
                assert(more.last() == state@);
                assert(states[n].ids.wf());
            }
            let ghost (shown, left) = (kept@, removed@);
            if present.contains(state.key) {
                kept.push(state);
                assert(window_views(kept@) =~= window_views(shown).push(state@));
            } else {
                let id: WindowId = state.id;
                self.focus.remove(id);
                self.pending.discard(id);
                removed.push(id);
                proof {
                    assert(removed@.drop_last() =~= left);
                    assert(removed@[left.len() as int] == id);
                    assert forall|other: WindowId| #[trigger]
                        removed@.contains(other) <==> left.contains(other) || other == id by {
                        if removed@.contains(other) {
                            let k = removed@.index_of(other);
                            if k < left.len() {
                                assert(left[k] == other);
                            }
                        }
                        if left.contains(other) {
                            let k = left.index_of(other);
                            assert(removed@[k] == other);
                        }
                    }
                }
            }
        }
        self.windows = kept;
        proof {
            assert(first.windows.take(first.windows.len() as int) =~= first.windows);
            law_retired_windows_are_gone(first, present@);
        }
        removed
    }

    /// Takes in the windows that were discovered again: drops those that are gone,
    /// marks the active one to be walked, and says which are new. Each new one is to
    /// be walked and admitted.
    pub fn reconcile(&mut self, discovered: &[Window], now: u64) -> (change: Reconciled)
        requires
            old(self).wf(),
        ensures
            final(self).wf(),
            final(self)@ == reconciled(old(self)@, discovered@, now),
            change.removed@ == gone(old(self)@.windows, window_keys(discovered@).to_set()),
            change.added@ == unknown(
                retired(old(self)@, window_keys(discovered@).to_set()).windows,
                discovered@,
            ),
    {
        let mut keys: Vec<ElementKey> = Vec::new();
        for i in 0..discovered.len()
            invariant
                keys@ == window_keys(discovered@).take(i as int),
        {
            keys.push(discovered[i].key);
            assert(keys@ =~= window_keys(discovered@).take(i + 1));
        }
        assert(keys@ =~= window_keys(discovered@));
        let present: ElementSet = ElementSet::of(keys.as_slice());
        let removed: Vec<WindowId> = self.retire(&present);
        let ghost kept = self@;
        let mut added: Vec<usize> = Vec::new();
        assert(discovered@.take(0) =~= Seq::<Window>::empty());
        for i in 0..discovered.len()
            invariant
                self.wf(),
                self@ == (DesktopView {
                    pending: kept_fresh(
                        kept.pending,
                        kept.windows,
                        discovered@.take(i as int),
                        now,
                    ),
                    ..kept
                }),
                added@ == unknown(kept.windows, discovered@.take(i as int)),
        {
            let ghost more = discovered@.take(i + 1);
            assert(more.drop_last() =~= discovered@.take(i as int));
            assert(more.last() == discovered@[i as int]);
            match self.find_key(discovered[i].key) {
                Some(k) => {
                    if discovered[i].active {
                        let id: WindowId = self.windows[k].id;
                        proof {
                            assert(self@.windows[k as int] == self.windows@[k as int]@);
                            assert(has_window(self@.windows, id));
                        }
                        self.note(id, now);
                    }
                },
                None => {
                    added.push(i);
                },
            }
        }
        assert(discovered@.take(discovered@.len() as int) =~= discovered@);
        Reconciled { removed, added }
    }
}

// ---------------------------------------------------------------- windows that come

/// A desktop after a window was admitted, by its first walk.
pub open spec fn admitted(desktop: DesktopView, key: ElementKey, nodes: Seq<AxNode>) -> DesktopView {
    DesktopView {
        windows: desktop.windows.push(
            WindowView {
                id: WindowId(desktop.next_id),
                key,
                owners: window_emission(nodes, Seq::empty()).owners,
                emitted: unsent(),
                shapes: shapes_of(window_update(nodes, Seq::empty()).nodes),
                settle_until: None,
            },
        ),
        next_id: (desktop.next_id + 1) as u64,
        ..desktop
    }
}

/// What a window is announced as.
pub open spec fn described(window: Window, id: u64) -> WindowDescriptor {
    WindowDescriptor {
        id: WindowId(id),
        title: window.title,
        app: window.app,
        native_window_id: window.native_window_id,
    }
}

/// A discovered window and its first walk.
pub struct WalkedWindow {
    pub window: Window,
    pub nodes: Vec<AxNode>,
}

/// What an enumeration has come to: the desktop, what to announce, and the last
/// active window.
pub struct Enumeration {
    pub desktop: DesktopView,
    pub out: Seq<(WindowDescriptor, TreeUpdateView)>,
    pub active: Option<WindowId>,
}

/// An enumeration of discovered windows, in order. A window whose walk came up
/// empty is left out.
pub open spec fn enumeration(desktop: DesktopView, walked: Seq<WalkedWindow>) -> Enumeration
    decreases walked.len(),
{
    if walked.len() == 0 {
        Enumeration { desktop, out: Seq::empty(), active: None }
    } else {
        let before = enumeration(desktop, walked.drop_last());
        let WalkedWindow { window, nodes } = walked.last();
        if nodes@.len() == 0 {
            before
        } else {
            let id = before.desktop.next_id;
            Enumeration {
                desktop: admitted(before.desktop, window.key, nodes@),
                out: before.out.push((described(window, id), window_update(nodes@, Seq::empty()))),
                active: if window.active {
                    Some(WindowId(id))
                } else {
                    before.active
                },
            }
        }
    }
}

/// Which window has focus after an enumeration: the active one, or else the first
/// of all, for a consumer has to start somewhere.
pub open spec fn initial_focus(enumerated: Enumeration) -> Option<WindowId> {
    match enumerated.active {
        Some(id) => Some(id),
        None => if enumerated.desktop.windows.len() > 0 {
            Some(enumerated.desktop.windows[0].id)
        } else {
            None
        },
    }
}

/// The contents of what is announced.
pub open spec fn snapshot_views(out: Seq<(WindowDescriptor, TreeUpdate)>) -> Seq<
    (WindowDescriptor, TreeUpdateView),
> {
    out.map_values(|e: (WindowDescriptor, TreeUpdate)| (e.0, e.1@))
}

/// The last active window of an enumeration is one of those that were admitted.
proof fn lemma_active_admitted(desktop: DesktopView, walked: Seq<WalkedWindow>)
    ensures
        enumeration(desktop, walked).active matches Some(id) ==> has_window(
            enumeration(desktop, walked).desktop.windows,
            id,
        ),
    decreases walked.len(),
{
    if walked.len() > 0 {
        lemma_active_admitted(desktop, walked.drop_last());
        let before = enumeration(desktop, walked.drop_last());
        let after = enumeration(desktop, walked);
        if walked.last().nodes@.len() > 0 {
            let n = before.desktop.windows.len() as int;
            assert(after.desktop.windows[n].id == WindowId(before.desktop.next_id));
            if let Some(id) = before.active {
                let i = choose|i: int|
                    0 <= i < before.desktop.windows.len() && (
                    #[trigger] before.desktop.windows[i]).id == id;
                assert(after.desktop.windows[i].id == id);
            }
        }
    }
}

impl Desktop {
    /// Admits a discovered window by its first walk, and returns what to announce it
    /// with: the whole tree, which is to be made ready for the wire and handed to
    /// [`Desktop::emit_walk`]. `None`, and nothing is admitted, if the walk came up
    /// empty: a window that is not ready yet is found again the next time.
    pub fn add_window(&mut self, window: Window, nodes: &[AxNode]) -> (added: Option<
        (WindowDescriptor, TreeUpdate),
    >)
        requires
            old(self).wf(),
            old(self).next_id < u64::MAX,
            forall|i: int| 0 <= i < nodes@.len() ==> range_fits(#[trigger] nodes@[i]),
        ensures
            final(self).wf(),
            nodes@.len() == 0 ==> added is None && final(self)@ == old(self)@,
            nodes@.len() > 0 ==> {
                &&& final(self)@ == admitted(old(self)@, window.key, nodes@)
                &&& added matches Some((descriptor, update)) && descriptor == described(
                    window,
                    old(self).next_id,
                ) && update@ == window_update(nodes@, Seq::empty())
            },
    {
        let mut ids = NodeIdMap::new();
        let update: TreeUpdate = match build_window_update(nodes, &mut ids) {
            Some(update) => update,
            None => {
                return None;
            },
        };
        let ghost before = self@;
        let ghost states = self.windows@;
        let id = WindowId(self.next_id);
        let Window { key, title, subrole: _, app, native_window_id, active: _ } = window;
        self.windows.push(
            WindowState {
                id,
                key,
                ids,
                emitted: EmittedTree::new(),
                shapes: ShapeMap::of(update.nodes.as_slice()),
                settle_until: None,
            },
        );
        self.next_id = self.next_id + 1;
        proof {
            let after = self@;
            assert(after.windows =~= admitted(before, window.key, nodes@).windows);
            assert forall|w: WindowId| has_window(before.windows, w) implies #[trigger] has_window(
                after.windows,
                w,
            ) by {
                let i = choose|i: int|
                    0 <= i < before.windows.len() && (#[trigger] before.windows[i]).id == w;
                assert(after.windows[i].id == w);
            }
            assert forall|i: int, j: int| 0 <= i < j < after.windows.len() implies (
            #[trigger] after.windows[i]).id != (#[trigger] after.windows[j]).id by {
                assert(after.windows[i] == before.windows[i]);
                if j < before.windows.len() {
                    assert(after.windows[j] == before.windows[j]);
                }
            }
            assert forall|i: int| 0 <= i < after.windows.len() implies (
            #[trigger] after.windows[i]).id.0 < after.next_id by {
                if i < before.windows.len() {
                    assert(after.windows[i] == before.windows[i]);
                }
            }
            assert forall|i: int| 0 <= i < self.windows@.len() implies (
            #[trigger] self.windows@[i]).ids.wf() by {
                if i < states.len() {
                    assert(self.windows@[i] == states[i]);
                }
            }
        }
        Some((WindowDescriptor { id, title, app, native_window_id }, update))
    }

    /// Gives focus to a window that was admitted as the active one, and returns the
    /// change to report: none if it has focus already or is not there.
    pub fn focus_window(&mut self, id: WindowId) -> (change: Option<Option<WindowId>>)
        requires
            old(self).wf(),
        ensures
            final(self).wf(),
            has_window(old(self)@.windows, id) ==> {
                &&& final(self)@ == (DesktopView { focus: Some(id), ..old(self)@ })
                &&& change == (if old(self)@.focus == Some(id) {
                    None
                } else {
                    Some(Some(id))
                })
            },
            !has_window(old(self)@.windows, id) ==> change is None && final(self)@ == old(self)@,
    {
        match self.find_window(id) {
            Some(_) => {
                proof {
                    lemma_window_found(self@.windows, with_id(id));
                }
                self.focus.focus(id)
            },
            None => {
                proof {
                    if has_window(self@.windows, id) {
                        let i = choose|i: int|
                            0 <= i < self@.windows.len() && (#[trigger] self@.windows[i]).id == id;
                        lemma_some_found(self@.windows, with_id(id), i);
                    }
                }
                None
            },
        }
    }

    /// Admits every discovered window, and returns the initial snapshot: the windows
    /// with their whole trees, and the focused one.
    pub fn enumerate(&mut self, walked: Vec<WalkedWindow>) -> (snapshot: (
        Vec<(WindowDescriptor, TreeUpdate)>,
        Option<WindowId>,
    ))
        requires
            old(self).wf(),
            old(self).next_id + walked@.len() <= u64::MAX,
            forall|i: int, j: int|
                0 <= i < walked@.len() && 0 <= j < walked@[i].nodes@.len() ==> range_fits(
                    #[trigger] walked@[i].nodes@[j],
                ),
        ensures
            final(self).wf(),
            ({
                let enumerated = enumeration(old(self)@, walked@);
                &&& final(self)@ == (DesktopView {
                    focus: initial_focus(enumerated),
                    ..enumerated.desktop
                })
                &&& snapshot_views(snapshot.0@) == enumerated.out
                &&& snapshot.1 == initial_focus(enumerated)
            }),
    {
        let ghost (first, all) = (self@, walked@);
        let mut out: Vec<(WindowDescriptor, TreeUpdate)> = Vec::new();
        let mut focused: Option<WindowId> = None;
        assert(snapshot_views(out@) =~= Seq::<(WindowDescriptor, TreeUpdateView)>::empty());
        assert(all.take(0) =~= Seq::<WalkedWindow>::empty());
        for entry in rest: walked.into_iter()
            invariant
                rest.seq() == all,
                self.wf(),
                self.next_id <= first.next_id + rest.index(),
                first.next_id + all.len() <= u64::MAX,
                forall|i: int, j: int|
                    0 <= i < all.len() && 0 <= j < all[i].nodes@.len() ==> range_fits(
                        #[trigger] all[i].nodes@[j],
                    ),
                self@ == enumeration(first, all.take(rest.index())).desktop,
                snapshot_views(out@) == enumeration(first, all.take(rest.index())).out,
                focused == enumeration(first, all.take(rest.index())).active,
        {
            proof {
                let n = rest.index();
                assert(all.take(n + 1).drop_last() =~= all.take(n));
                assert(all.take(n + 1).last() == entry);
                assert(all[n] == entry);
                assert forall|j: int| 0 <= j < entry.nodes@.len() implies range_fits(
                    #[trigger] entry.nodes@[j],
                ) by {
                    assert(range_fits(all[n].nodes@[j]));
                }
            }
            let ghost shown = out@;
            let WalkedWindow { window, nodes } = entry;
            let active: bool = window.active;
            match self.add_window(window, nodes.as_slice()) {
                Some((descriptor, update)) => {
                    if active {
                        focused = Some(descriptor.id);
                    }
                    out.push((descriptor, update));
                    assert(snapshot_views(out@) =~= snapshot_views(shown).push(
                        (descriptor, update@),
                    ));
                },
                None => {},
            }
        }
        assert(all.take(all.len() as int) =~= all);
        proof {
            lemma_active_admitted(first, all);
        }
        if focused.is_none() && self.windows.len() > 0 {
            assert(self@.windows[0] == self.windows@[0]@);
            focused = Some(self.windows[0].id);
            assert(self@.windows[0].id == focused.unwrap());
        }
        self.focus = FocusTracker::new(focused);
        (out, focused)
    }
}

// ---------------------------------------------------------------- actions

/// The element that an action on a node of a window is for.
pub open spec fn target_of(desktop: DesktopView, window: WindowId, node: NodeId) -> Option<
    ElementKey,
> {
    match find_first(desktop.windows, with_id(window)) {
        Some(i) if node.0 < desktop.windows[i].owners.len() => match desktop.windows[i].owners[node.0 as int] {
            Owner::Element(key) => Some(key),
            Owner::Run { .. } => None,
        },
        _ => None,
    }
}

/// A desktop after an action on one of its windows, which is watched for a while:
/// some controls report nothing when driven.
pub open spec fn after_action(desktop: DesktopView, id: WindowId, now: u64) -> DesktopView {
    match find_first(desktop.windows, with_id(id)) {
        Some(i) => DesktopView {
            windows: desktop.windows.update(
                i,
                WindowView {
                    settle_until: Some((now + SETTLE_AFTER_ACTION) as u128),
                    ..desktop.windows[i]
                },
            ),
            pending: noted_at(desktop.pending, id, now),
            ..desktop
        },
        None => desktop,
    }
}

/// Those of the processes, in order, that are still running.
pub open spec fn still_running(observed: Seq<i32>, live: Seq<i32>) -> Seq<i32>
    decreases observed.len(),
{
    if observed.len() == 0 {
        Seq::empty()
    } else {
        let before = still_running(observed.drop_last(), live);
        if live.contains(observed.last()) {
            before.push(observed.last())
        } else {
            before
        }
    }
}

fn has_pid(pids: &[i32], pid: i32) -> (found: bool)
    ensures
        found == pids@.contains(pid),
{
    for i in 0..pids.len()
        invariant
            forall|j: int| 0 <= j < i ==> pids@[j] != pid,
    {
        if pids[i] == pid {
            assert(pids@[i as int] == pid);
            return true;
        }
    }
    false
}

impl Desktop {
    /// The element that an action is to be carried out on; `None` for a window or a
    /// node that is not there.
    pub fn action_target(&self, window: WindowId, node: NodeId) -> (target: Option<ElementKey>)
        ensures
            target == target_of(self@, window, node),
    {
        match self.find_window(window) {
            Some(i) => {
                assert(self@.windows[i as int] == self.windows@[i as int]@);
                self.windows[i].ids.key_for(node)
            },
            None => None,
        }
    }

    /// Takes in that an action was carried out on a window, whether or not it
    /// succeeded.
    pub fn acted(&mut self, id: WindowId, now: u64)
        requires
            old(self).wf(),
        ensures
            final(self).wf(),
            final(self)@ == after_action(old(self)@, id, now),
    {
        match self.find_window(id) {
            Some(i) => {
                let ghost before = self@;
                let ghost states = self.windows@;
                self.windows[i].settle_until = Some(now as u128 + SETTLE_AFTER_ACTION as u128);
                proof {
                    assert(before.windows[i as int] == states[i as int]@);
                    assert(self@.windows =~= after_action(before, id, now).windows);
                    lemma_same_ids(before, self@);
                    assert forall|k: int| 0 <= k < self.windows@.len() implies (
                    #[trigger] self.windows@[k]).ids.wf() by {
                        assert(states[k].ids.wf());
                    }
                    lemma_window_found(before.windows, with_id(id));
                    assert(self@.windows[i as int].id == id);
                }
                self.note(id, now);
            },
            None => {},
        }
    }

    /// Whether a process is listened to already. One that is not is to be asked to
    /// publish its tree, and to be listened to.
    pub fn is_observed(&self, pid: i32) -> (observed: bool)
        ensures
            observed == self@.observed.contains(pid),
    {
        has_pid(self.observed.as_slice(), pid)
    }

    /// Takes in that a process is listened to.
    pub fn observe(&mut self, pid: i32)
        requires
            old(self).wf(),
        ensures
            final(self).wf(),
            final(self)@ == (DesktopView { observed: old(self)@.observed.push(pid), ..old(self)@ }),
    {
        self.observed.push(pid);
    }

    /// Stops listening to the processes that are not running any more.
    pub fn keep_observed(&mut self, live: &[i32])
        requires
            old(self).wf(),
        ensures
            final(self).wf(),
            final(self)@ == (DesktopView {
                observed: still_running(old(self)@.observed, live@),
                ..old(self)@
            }),
    {
        let mut kept: Vec<i32> = Vec::new();
        let ghost all = self.observed@;
        assert(all.take(0) =~= Seq::<i32>::empty());
        for i in 0..self.observed.len()
            invariant
                all == self.observed@,
                kept@ == still_running(all.take(i as int), live@),
        {
            assert(all.take(i + 1).drop_last() =~= all.take(i as int));
            if has_pid(live, self.observed[i]) {
                kept.push(self.observed[i]);
            }
        }
        assert(all.take(all.len() as int) =~= all);
        self.observed = kept;
    }
}

// ---------------------------------------------------------------- what a discovery changes

proof fn lemma_remaining_is_filter(windows: Seq<WindowView>, present: Set<ElementKey>)
    ensures
        remaining(windows, present) == windows.filter(|w: WindowView| present.contains(w.key)),
        gone(windows, present) == windows.filter(
            |w: WindowView| !present.contains(w.key),
        ).map_values(|w: WindowView| w.id),
    decreases windows.len(),
{
    reveal(Seq::filter);
    let id = |w: WindowView| w.id;
    let lost = |w: WindowView| !present.contains(w.key);
    if windows.len() > 0 {
        let init = windows.drop_last();
        lemma_remaining_is_filter(init, present);
        if lost(windows.last()) {
            assert(init.filter(lost).push(windows.last()).map_values(id) =~= init.filter(
                lost,
            ).map_values(id).push(windows.last().id));
        }
    } else {
        assert(windows.filter(lost).map_values(id) =~= Seq::empty());
    }
}

/// Retiring takes away the windows whose elements are gone and no other: those that are
/// there stay, as they are and in their order, and the others are named, in theirs.
/// Focus and walks that are due stay with the windows that stay.
pub proof fn law_every_other_window_stays(
    desktop: DesktopView,
    present: Set<ElementKey>,
    i: int,
    id: WindowId,
)
    ensures
        ({
            let after = retired(desktop, present);
            let lost = desktop.windows.filter(
                |w: WindowView| !present.contains(w.key),
            ).map_values(|w: WindowView| w.id);
            &&& after.windows == desktop.windows.filter(|w: WindowView| present.contains(w.key))
            &&& gone(desktop.windows, present) == lost
            &&& 0 <= i < desktop.windows.len() && present.contains(desktop.windows[i].key)
                ==> after.windows.contains(desktop.windows[i])
            &&& after.next_id == desktop.next_id
            &&& after.observed == desktop.observed
            &&& after.focus == if desktop.focus is Some && lost.contains(desktop.focus->0) {
                None
            } else {
                desktop.focus
            }
            &&& after.pending.contains_key(id) <==> desktop.pending.contains_key(id)
                && !lost.contains(id)
            &&& after.pending.contains_key(id) ==> after.pending[id] == desktop.pending[id]
        }),
{
    lemma_remaining_is_filter(desktop.windows, present);
    lemma_kept_pending(desktop.pending, gone(desktop.windows, present), id);
    if 0 <= i < desktop.windows.len() && present.contains(desktop.windows[i].key) {
        desktop.windows.lemma_filter_contains_rev(
            |w: WindowView| present.contains(w.key),
            desktop.windows[i],
        );
    }
}

proof fn lemma_kept_pending(pending: Map<WindowId, Pending>, gone: Seq<WindowId>, id: WindowId)
    ensures
        kept_pending(pending, gone).contains_key(id) <==> pending.contains_key(id)
            && !gone.contains(id),
        kept_pending(pending, gone).contains_key(id) ==> kept_pending(pending, gone)[id]
            == pending[id],
    decreases gone.len(),
{
    if gone.len() > 0 {
        let init = gone.drop_last();
        lemma_kept_pending(pending, init, id);
        assert(gone[gone.len() - 1] == gone.last());
        if init.contains(id) {
            let k = init.index_of(id);
            assert(gone[k] == id);
        }
        if gone.contains(id) && id != gone.last() {
            let k = gone.index_of(id);
            assert(init[k] == id);
        }
    }
}

/// The discovered windows that are new are those that are not mirrored, in their order,
/// each once.
pub proof fn law_unmirrored_windows_are_new(
    windows: Seq<WindowView>,
    discovered: Seq<Window>,
    i: int,
)
    requires
        discovered.len() <= usize::MAX,
    ensures
        0 <= i < discovered.len() ==> (unknown(windows, discovered).contains(i as usize)
            <==> forall|k: int|
            0 <= k < windows.len() ==> (#[trigger] windows[k]).key != discovered[i].key),
        forall|j: int|
            0 <= j < unknown(windows, discovered).len() ==> (#[trigger] unknown(
                windows,
                discovered,
            )[j]) < discovered.len(),
        forall|j: int, k: int|
            0 <= j < k < unknown(windows, discovered).len() ==> (#[trigger] unknown(
                windows,
                discovered,
            )[j]) < #[trigger] unknown(windows, discovered)[k],
    decreases discovered.len(),
{
    if discovered.len() > 0 {
        let init = discovered.drop_last();
        let n = discovered.len() - 1;
        law_unmirrored_windows_are_new(windows, init, i);
        let (before, all) = (unknown(windows, init), unknown(windows, discovered));
        let fits = with_key(discovered[n].key);
        let new = find_first(windows, fits) is None;
        assert(discovered[n] == discovered.last());
        assert forall|j: int, k: int| 0 <= j < k < all.len() implies (#[trigger] all[j]) < (
        #[trigger] all[k]) by {
            assert(all[j] == before[j]);
            if k < before.len() {
                assert(all[k] == before[k]);
            }
        }
        assert forall|j: int| 0 <= j < all.len() implies (#[trigger] all[j]) < discovered.len() by {
            if j < before.len() {
                assert(all[j] == before[j]);
            }
        }
        if 0 <= i < n {
            assert(init[i] == discovered[i]);
            if before.contains(i as usize) {
                let k = before.index_of(i as usize);
                assert(all[k] == i as usize);
            }
            if all.contains(i as usize) {
                let k = all.index_of(i as usize);
                assert(k < before.len());
                assert(before[k] == i as usize);
            }
        } else if i == n {
            if new {
                assert(all[before.len() as int] == n as usize);
                assert forall|k: int| 0 <= k < windows.len() implies (#[trigger] windows[k]).key
                    != discovered[i].key by {
                    law_the_first_is_found(windows, fits, k);
                }
            } else {
                law_the_first_is_found(windows, fits, 0);
                assert(fits(windows[find_first(windows, fits)->0]));
                if all.contains(i as usize) {
                    let k = all.index_of(i as usize);
                    assert(before[k] < n);
                }
            }
        }
    }
}

/// A discovery makes a walk due of each active window that is mirrored, and touches no
/// other walk.
pub proof fn law_active_windows_are_kept_fresh(
    pending: Map<WindowId, Pending>,
    windows: Seq<WindowView>,
    discovered: Seq<Window>,
    now: u64,
    id: WindowId,
)
    ensures
        ({
            let after = kept_fresh(pending, windows, discovered, now);
            let active = exists|k: int|
                {
                    let found = #[trigger] discovered[k];
                    0 <= k < discovered.len() && found.active && (find_first(
                        windows,
                        with_key(found.key),
                    ) matches Some(i) && windows[i].id == id)
                };
            &&& active ==> after.contains_key(id) && due_after(pending, id, now, after[id])
            &&& !active ==> {
                &&& after.contains_key(id) == pending.contains_key(id)
                &&& pending.contains_key(id) ==> after[id] == pending[id]
            }
        }),
    decreases discovered.len(),
{
    let active = |found: Window|
        found.active && (find_first(windows, with_key(found.key)) matches Some(i) && windows[i].id
            == id);
    if discovered.len() > 0 {
        let init = discovered.drop_last();
        let n = discovered.len() - 1;
        law_active_windows_are_kept_fresh(pending, windows, init, now, id);
        assert(discovered[n] == discovered.last());
        if exists|k: int| 0 <= k < init.len() && active(#[trigger] init[k]) {
            let k = choose|k: int| 0 <= k < init.len() && active(#[trigger] init[k]);
            assert(active(discovered[k]));
        } else if exists|k: int| 0 <= k < discovered.len() && active(#[trigger] discovered[k]) {
            let k = choose|k: int| 0 <= k < discovered.len() && active(#[trigger] discovered[k]);
            if k < n {
                assert(active(init[k]));
            }
        }
        assert(active(discovered[n]) || !active(discovered[n]));
    }
}

/// After a discovery the windows are those that were found again, and of what is due only
/// the walks of the active ones among them are new.
pub proof fn law_a_discovery_keeps_what_was_found(
    desktop: DesktopView,
    discovered: Seq<Window>,
    now: u64,
    i: int,
)
    ensures
        ({
            let after = reconciled(desktop, discovered, now);
            let found = |w: WindowView|
                exists|k: int|
                    0 <= k < discovered.len() && (#[trigger] discovered[k]).key == w.key;
            let kept = retired(desktop, window_keys(discovered).to_set());
            &&& after.windows == desktop.windows.filter(found)
            &&& 0 <= i < desktop.windows.len() ==> (found(desktop.windows[i])
                ==> after.windows.contains(desktop.windows[i]))
            &&& after.focus == kept.focus
            &&& after.next_id == desktop.next_id
            &&& after.observed == desktop.observed
            &&& after.pending == kept_fresh(kept.pending, after.windows, discovered, now)
        }),
{
    let present = window_keys(discovered).to_set();
    let found = |w: WindowView|
        exists|k: int| 0 <= k < discovered.len() && (#[trigger] discovered[k]).key == w.key;
    let kept = |w: WindowView| present.contains(w.key);
    law_every_other_window_stays(desktop, present, i, WindowId(0));
    assert forall|w: WindowView| #[trigger] found(w) == kept(w) by {
        let keys = window_keys(discovered);
        if kept(w) {
            let k = keys.index_of(w.key);
            assert(discovered[k].key == w.key);
        }
        if found(w) {
            let k = choose|k: int| 0 <= k < discovered.len() && (#[trigger] discovered[k]).key == w.key;
            assert(keys[k] == w.key);
        }
    }
    assert(found =~= kept);
}

/// An enumeration announces every window whose walk found something, in its order: each
/// under the next free id, with what its walk built, and it is mirrored under that id
/// behind the windows there were. The last one marked as active is the active one.
pub proof fn law_every_walked_window_is_announced(
    desktop: DesktopView,
    walked: Seq<WalkedWindow>,
    j: int,
)
    requires
        desktop.next_id + walked.len() <= u64::MAX,
    ensures
        ({
            let after = enumeration(desktop, walked);
            let shown = walked.filter(|w: WalkedWindow| w.nodes@.len() > 0);
            let id = WindowId((desktop.next_id + j) as u64);
            &&& after.out.len() == shown.len() <= walked.len()
            &&& after.desktop.windows.len() == desktop.windows.len() + shown.len()
            &&& after.desktop.windows.take(desktop.windows.len() as int) == desktop.windows
            &&& after.desktop.next_id == desktop.next_id + shown.len()
            &&& after.desktop.focus == desktop.focus
            &&& after.desktop.pending == desktop.pending
            &&& after.desktop.observed == desktop.observed
            &&& 0 <= j < shown.len() ==> {
                let window = after.desktop.windows[desktop.windows.len() + j];
                let from = shown[j].window;
                &&& after.out[j].0 == (WindowDescriptor {
                    id,
                    title: from.title,
                    app: from.app,
                    native_window_id: from.native_window_id,
                })
                &&& after.out[j].1 == window_update(shown[j].nodes@, Seq::empty())
                &&& window.id == id
                &&& window.key == from.key
                &&& window.owners == window_emission(shown[j].nodes@, Seq::empty()).owners
                &&& window.shapes == shapes_of(after.out[j].1.nodes)
                &&& window.emitted.nodes.dom().is_empty()
                &&& window.emitted.focus is None
                &&& !window.emitted.announced
                &&& window.settle_until is None
                &&& from.active && (forall|i: int|
                    j < i < shown.len() ==> !(#[trigger] shown[i]).window.active) ==> after.active
                    == Some(id)
            }
            &&& after.active is None <==> forall|i: int|
                0 <= i < shown.len() ==> !(#[trigger] shown[i]).window.active
        }),
    decreases walked.len(),
{
    reveal(Seq::filter);
    let keep = |w: WalkedWindow| w.nodes@.len() > 0;
    let shown = walked.filter(keep);
    let after = enumeration(desktop, walked);
    if walked.len() > 0 {
        let init = walked.drop_last();
        let first = init.filter(keep);
        let before = enumeration(desktop, init);
        law_every_walked_window_is_announced(desktop, init, j);
        let last = walked.last();
        if keep(last) {
            assert(shown == first.push(last));
            assert forall|i: int| 0 <= i < first.len() implies #[trigger] shown[i] == first[i] by {}
            assert(shown[first.len() as int] == last);
            assert(after.desktop.windows.take(desktop.windows.len() as int)
                =~= before.desktop.windows.take(desktop.windows.len() as int));
            if forall|i: int| 0 <= i < shown.len() ==> !(#[trigger] shown[i]).window.active {
                assert forall|i: int| 0 <= i < first.len() implies !(
                #[trigger] first[i]).window.active by {
                    assert(shown[i] == first[i]);
                }
            } else {
                let i = choose|i: int| 0 <= i < shown.len() && (#[trigger] shown[i]).window.active;
                if i < first.len() {
                    assert(first[i].window.active);
                }
            }
            if 0 <= j < first.len() {
                if forall|i: int| j < i < shown.len() ==> !(#[trigger] shown[i]).window.active {
                    assert forall|i: int| j < i < first.len() implies !(
                    #[trigger] first[i]).window.active by {
                        assert(shown[i] == first[i]);
                    }
                }
            }
        }
    } else {
        assert(shown =~= Seq::empty());
        assert(after.desktop.windows.take(desktop.windows.len() as int) =~= desktop.windows);
    }
}

/// After an enumeration the active window has focus. Without one it is the first of all
/// windows, and nothing has focus only where there is no window.
pub proof fn law_an_enumeration_gives_focus(enumerated: Enumeration)
    ensures
        enumerated.active is Some ==> initial_focus(enumerated) == enumerated.active,
        enumerated.active is None && enumerated.desktop.windows.len() > 0 ==> initial_focus(
            enumerated,
        ) == Some(enumerated.desktop.windows[0].id),
        initial_focus(enumerated) is None <==> enumerated.active is None
            && enumerated.desktop.windows.len() == 0,
{
}

/// An action goes to the element that has the node's id in the window it names. Text runs
/// and unknown ids are no target, and neither is a window that is not mirrored.
pub proof fn law_an_action_goes_to_its_element(
    desktop: DesktopView,
    window: WindowId,
    node: NodeId,
    i: int,
)
    requires
        0 <= i < desktop.windows.len(),
        forall|j: int| 0 <= j < i ==> (#[trigger] desktop.windows[j]).id != window,
    ensures
        ({
            let owners = desktop.windows[i].owners;
            let target = target_of(desktop, window, node);
            &&& desktop.windows[i].id == window ==> match target {
                Some(key) => node.0 < owners.len() && owners[node.0 as int] == Owner::Element(key),
                None => node.0 >= owners.len() || owners[node.0 as int] is Run,
            }
            &&& i == desktop.windows.len() - 1 && desktop.windows[i].id != window ==> target is None
        }),
{
    let fits = with_id(window);
    if desktop.windows[i].id == window {
        assert(first_match(desktop.windows, fits, i));
        lemma_found(desktop.windows, fits, i);
    } else if i == desktop.windows.len() - 1 {
        lemma_not_found(desktop.windows, fits);
    }
}

/// After an action its window is to be walked again, and is watched for three and a half
/// seconds. Nothing else changes.
pub proof fn law_an_action_watches_its_window(
    desktop: DesktopView,
    id: WindowId,
    now: u64,
    i: int,
    other: WindowId,
)
    requires
        0 <= i < desktop.windows.len(),
    ensures
        ({
            let after = after_action(desktop, id, now);
            let (was, is) = (desktop.windows[i], after.windows[i]);
            let first = was.id == id && forall|j: int|
                0 <= j < i ==> (#[trigger] desktop.windows[j]).id != id;
            &&& after.windows.len() == desktop.windows.len()
            &&& after.next_id == desktop.next_id
            &&& after.focus == desktop.focus
            &&& after.observed == desktop.observed
            &&& first ==> is == (WindowView { settle_until: is.settle_until, ..was })
                && is.settle_until is Some && is.settle_until->0 == now + 3500
            &&& !first ==> is == was
            &&& was.id == id ==> after.pending.contains_key(id) && due_after(
                desktop.pending,
                id,
                now,
                after.pending[id],
            )
            &&& other != id ==> after.pending.contains_key(other) == desktop.pending.contains_key(
                other,
            ) && (desktop.pending.contains_key(other) ==> after.pending[other]
                == desktop.pending[other])
        }),
{
    let fits = with_id(id);
    let (was, found) = (desktop.windows[i], find_first(desktop.windows, fits));
    law_the_first_is_found(desktop.windows, fits, i);
    if was.id == id && forall|j: int| 0 <= j < i ==> (#[trigger] desktop.windows[j]).id != id {
        assert(first_match(desktop.windows, fits, i));
        lemma_found(desktop.windows, fits, i);
    } else if found == Some(i) {
        assert(first_match(desktop.windows, fits, i));
        assert(forall|j: int| 0 <= j < i ==> (#[trigger] desktop.windows[j]).id != id);
    }
}

/// The processes that are still observed are those that run, in their order.
pub proof fn law_running_processes_stay_observed(observed: Seq<i32>, live: Seq<i32>)
    ensures
        still_running(observed, live) == observed.filter(|pid: i32| live.contains(pid)),
    decreases observed.len(),
{
    reveal(Seq::filter);
    if observed.len() > 0 {
        law_running_processes_stay_observed(observed.drop_last(), live);
    }
}

} // verus!
