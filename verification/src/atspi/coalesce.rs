//! Trailing debounce of re-walks, per window. A burst of invalidations for one
//! window collapses into one walk, due `quiet` after the last invalidation but
//! never later than `max_delay` after the first, so that a window that keeps
//! changing still gets walked eventually.
//!
//! Times are counts of one unit from one origin, both the caller's.

use crate::messages::WindowId;
use vstd::prelude::*;

verus! {

/// A scheduled walk: when it is due, and the latest it may be put off to. Both are
/// wide enough for the sum of any time and any delay.
#[derive(Debug, Clone, Copy, PartialEq, Eq, Structural)]
pub struct Pending {
    pub deadline: u128,
    pub latest: u128,
}

/// Collapses repeated requests for the same window into one scheduled walk.
pub struct RewalkCoalescer {
    pending: Vec<(WindowId, Pending)>,
    quiet: u64,
    max_delay: u64,
}

/// What is scheduled after one more invalidation.
pub open spec fn noted(
    pending: Map<WindowId, Pending>,
    quiet: u64,
    max_delay: u64,
    window: WindowId,
    now: u64,
) -> Map<WindowId, Pending> {
    let latest = if pending.contains_key(window) {
        pending[window].latest as int
    } else {
        now + max_delay
    };
    let deadline = if now + quiet <= latest {
        now + quiet
    } else {
        latest
    };
    pending.insert(window, Pending { deadline: deadline as u128, latest: latest as u128 })
}

/// What is scheduled after a burst of invalidations of one window.
pub open spec fn noted_all(
    pending: Map<WindowId, Pending>,
    quiet: u64,
    max_delay: u64,
    window: WindowId,
    times: Seq<u64>,
) -> Map<WindowId, Pending>
    decreases times.len(),
{
    if times.len() == 0 {
        pending
    } else {
        noted(
            noted_all(pending, quiet, max_delay, window, times.drop_last()),
            quiet,
            max_delay,
            window,
            times.last(),
        )
    }
}

/// A burst, however long, is due `quiet` after its last invalidation, or
/// `max_delay` after its first where that is earlier; other windows are untouched.
pub proof fn law_steady_stream_is_capped(
    pending: Map<WindowId, Pending>,
    quiet: u64,
    max_delay: u64,
    window: WindowId,
    times: Seq<u64>,
    other: WindowId,
)
    requires
        !pending.contains_key(window),
        times.len() > 0,
    ensures
        ({
            let after = noted_all(pending, quiet, max_delay, window, times);
            let (cap, due) = (times[0] + max_delay, times.last() + quiet);
            &&& after.contains_key(window)
            &&& after[window].latest == cap
            &&& after[window].deadline == if due <= cap {
                due
            } else {
                cap
            }
            &&& other != window ==> (after.contains_key(other) == pending.contains_key(other) && (
            pending.contains_key(other) ==> after[other] == pending[other]))
        }),
    decreases times.len(),
{
    let init = times.drop_last();
    if init.len() > 0 {
        law_steady_stream_is_capped(pending, quiet, max_delay, window, init, other);
    } else {
        assert(noted_all(pending, quiet, max_delay, window, init) == pending);
    }
}

/// A window that is discarded is scheduled no more, and its next invalidation
/// starts a burst of its own; where nothing was scheduled for it nothing changes,
/// and other windows are untouched.
pub proof fn law_a_discarded_window_starts_afresh(
    pending: Map<WindowId, Pending>,
    quiet: u64,
    max_delay: u64,
    window: WindowId,
    now: u64,
    other: WindowId,
)
    ensures
        ({
            let left = pending.remove(window);
            let after = noted(left, quiet, max_delay, window, now);
            &&& !left.contains_key(window)
            &&& !pending.contains_key(window) ==> left == pending
            &&& other != window ==> (left.contains_key(other) == pending.contains_key(other) && (
            pending.contains_key(other) ==> left[other] == pending[other]))
            &&& after.contains_key(window)
            &&& after[window].latest == now + max_delay
            &&& after[window].deadline == now + if quiet <= max_delay {
                quiet
            } else {
                max_delay
            }
        }),
{
    if !pending.contains_key(window) {
        assert(pending.remove(window) =~= pending);
    }
}

/// The map that a list of entries stands for.
pub open spec fn entry_map(entries: Seq<(WindowId, Pending)>) -> Map<WindowId, Pending>
    decreases entries.len(),
{
    if entries.len() == 0 {
        Map::empty()
    } else {
        entry_map(entries.drop_last()).insert(entries.last().0, entries.last().1)
    }
}

/// Whether no two entries are of the same window.
pub open spec fn one_each(entries: Seq<(WindowId, Pending)>) -> bool {
    forall|i: int, j: int|
        0 <= i < j < entries.len() ==> (#[trigger] entries[i]).0 != (#[trigger] entries[j]).0
}

proof fn lemma_entry_map(entries: Seq<(WindowId, Pending)>)
    requires
        one_each(entries),
    ensures
        forall|i: int|
            0 <= i < entries.len() ==> entry_map(entries).contains_key((#[trigger] entries[i]).0)
                && entry_map(entries)[entries[i].0] == entries[i].1,
        forall|w: WindowId| #[trigger]
            entry_map(entries).contains_key(w) ==> has_entry(entries, w),
    decreases entries.len(),
{
    if entries.len() > 0 {
        let init = entries.drop_last();
        let n = entries.len() - 1;
        assert forall|i: int, j: int| 0 <= i < j < init.len() implies (#[trigger] init[i]).0 != (
        #[trigger] init[j]).0 by {
            assert(entries[i].0 != entries[j].0);
        }
        lemma_entry_map(init);
        assert forall|i: int| 0 <= i < entries.len() implies entry_map(entries).contains_key(
            (#[trigger] entries[i]).0,
        ) && entry_map(entries)[entries[i].0] == entries[i].1 by {
            if i < n {
                assert(init[i] == entries[i]);
                assert(entries[i].0 != entries[n].0);
            }
        }
        assert forall|w: WindowId| #[trigger]
            entry_map(entries).contains_key(w) implies has_entry(entries, w) by {
            if w == entries[n].0 {
                assert(entries[n].0 == w);
            } else {
                assert(entry_map(init).contains_key(w));
                let i = choose|i: int| 0 <= i < init.len() && (#[trigger] init[i]).0 == w;
                assert(entries[i].0 == w);
            }
        }
    }
}

/// Whether there is an entry of a window.
pub open spec fn has_entry(entries: Seq<(WindowId, Pending)>, window: WindowId) -> bool {
    exists|i: int| 0 <= i < entries.len() && (#[trigger] entries[i]).0 == window
}

/// Entries stand for a map as soon as it has each of them and nothing else.
proof fn lemma_stands_for(entries: Seq<(WindowId, Pending)>, map: Map<WindowId, Pending>)
    requires
        one_each(entries),
        forall|i: int|
            0 <= i < entries.len() ==> map.contains_key((#[trigger] entries[i]).0)
                && map[entries[i].0] == entries[i].1,
        forall|w: WindowId| #[trigger] map.contains_key(w) ==> has_entry(entries, w),
    ensures
        entry_map(entries) == map,
{
    lemma_entry_map(entries);
    assert forall|w: WindowId| entry_map(entries).contains_key(w) == map.contains_key(w) && (
    map.contains_key(w) ==> entry_map(entries)[w] == map[w]) by {
        if map.contains_key(w) {
            let i = choose|i: int| 0 <= i < entries.len() && (#[trigger] entries[i]).0 == w;
            assert(map[entries[i].0] == entries[i].1);
        }
        if entry_map(entries).contains_key(w) {
            let i = choose|i: int| 0 <= i < entries.len() && (#[trigger] entries[i]).0 == w;
            assert(map.contains_key(entries[i].0));
        }
    }
    assert(entry_map(entries) =~= map);
}

impl View for RewalkCoalescer {
    type V = Map<WindowId, Pending>;

    closed spec fn view(&self) -> Map<WindowId, Pending> {
        entry_map(self.pending@)
    }
}

impl RewalkCoalescer {
    /// No window is scheduled twice.
    pub closed spec fn wf(&self) -> bool {
        one_each(self.pending@)
    }

    pub closed spec fn quiet_time(&self) -> u64 {
        self.quiet
    }

    pub closed spec fn longest_delay(&self) -> u64 {
        self.max_delay
    }

    /// A coalescer whose walks are due `quiet` after the last note of a burst,
    /// capped at `max_delay` after its first.
    pub fn new(quiet: u64, max_delay: u64) -> (coalescer: Self)
        ensures
            coalescer.wf(),
            coalescer@ == Map::<WindowId, Pending>::empty(),
            coalescer.quiet_time() == quiet,
            coalescer.longest_delay() == max_delay,
    {
        Self { pending: Vec::new(), quiet, max_delay }
    }

    /// Where the entry of `window` is, or how many there are if it has none.
    fn place(&self, window: WindowId) -> (found: usize)
        ensures
            found <= self.pending@.len(),
            found < self.pending@.len() ==> self.pending@[found as int].0 == window,
            found == self.pending@.len() ==> forall|i: int|
                0 <= i < self.pending@.len() ==> (#[trigger] self.pending@[i]).0 != window,
    {
        let mut i: usize = 0;
        while i < self.pending.len()
            invariant
                i <= self.pending.len(),
                forall|j: int| 0 <= j < i ==> (#[trigger] self.pending@[j]).0 != window,
            decreases self.pending.len() - i,
        {
            if self.pending[i].0 == window {
                return i;
            }
            i = i + 1;
        }
        i
    }

    /// Records an invalidation of `window` at `now`. A new burst schedules a walk
    /// at `now + quiet`, capped at `now + max_delay`; a note within a burst puts
    /// the walk off to `now + quiet`, without moving past that burst's cap.
    pub fn note(&mut self, window: WindowId, now: u64)
        requires
            old(self).wf(),
        ensures
            final(self).wf(),
            final(self)@ == noted(
                old(self)@,
                old(self).quiet_time(),
                old(self).longest_delay(),
                window,
                now,
            ),
            final(self).quiet_time() == old(self).quiet_time(),
            final(self).longest_delay() == old(self).longest_delay(),
    {
        let i: usize = self.place(window);
        proof {
            lemma_entry_map(self.pending@);
        }
        let latest: u128 = if i < self.pending.len() {
            self.pending[i].1.latest
        } else {
            now as u128 + self.max_delay as u128
        };
        let due: u128 = now as u128 + self.quiet as u128;
        let deadline: u128 = if due <= latest {
            due
        } else {
            latest
        };
        let entry: (WindowId, Pending) = (window, Pending { deadline, latest });
        let ghost before = self.pending@;
        let ghost wanted = entry_map(before).insert(window, entry.1);
        if i < self.pending.len() {
            self.pending.set(i, entry);
            proof {
                assert forall|j: int, k: int| 0 <= j < k < self.pending@.len() implies (
                #[trigger] self.pending@[j]).0 != (#[trigger] self.pending@[k]).0 by {
                    assert(before[j].0 != before[k].0);
                }
                assert forall|j: int| 0 <= j < self.pending@.len() implies wanted.contains_key(
                    (#[trigger] self.pending@[j]).0,
                ) && wanted[self.pending@[j].0] == self.pending@[j].1 by {
                    if j != i {
                        assert(before[j].0 != before[i as int].0);
                    }
                }
                assert forall|w: WindowId| #[trigger] wanted.contains_key(w) implies has_entry(
                    self.pending@,
                    w,
                ) by {
                    if w == window {
                        assert(self.pending@[i as int].0 == w);
                    } else {
                        let j = choose|j: int| 0 <= j < before.len() && (#[trigger] before[j]).0
                            == w;
                        assert(self.pending@[j].0 == w);
                    }
                }
                lemma_stands_for(self.pending@, wanted);
            }
        } else {
            self.pending.push(entry);
            proof {
                assert(self.pending@.drop_last() =~= before);
                assert forall|j: int, k: int| 0 <= j < k < self.pending@.len() implies (
                #[trigger] self.pending@[j]).0 != (#[trigger] self.pending@[k]).0 by {
                    if k < before.len() {
                        assert(before[j].0 != before[k].0);
                    } else {
                        assert(before[j].0 != window);
                    }
                }
                if entry_map(before).contains_key(window) {
                    let j = choose|j: int| 0 <= j < before.len() && (#[trigger] before[j]).0
                        == window;
                    assert(before[j].0 != window);
                }
            }
        }
    }

    /// The earliest deadline of all, or `None` if nothing is scheduled.
    pub fn next_deadline(&self) -> (next: Option<u128>)
        requires
            self.wf(),
        ensures
            next is None <==> self@ == Map::<WindowId, Pending>::empty(),
            next matches Some(deadline) ==> {
                &&& exists|w: WindowId| #[trigger]
                    self@.contains_key(w) && self@[w].deadline == deadline
                &&& forall|w: WindowId| #[trigger]
                    self@.contains_key(w) ==> deadline <= self@[w].deadline
            },
    {
        proof {
            lemma_entry_map(self.pending@);
        }
        if self.pending.len() == 0 {
            return None;
        }
        let mut best: usize = 0;
        let mut i: usize = 1;
        while i < self.pending.len()
            invariant
                best < i <= self.pending.len(),
                forall|j: int|
                    0 <= j < i ==> self.pending@[best as int].1.deadline <= (
                    #[trigger] self.pending@[j]).1.deadline,
            decreases self.pending.len() - i,
        {
            if self.pending[i].1.deadline < self.pending[best].1.deadline {
                best = i;
            }
            i = i + 1;
        }
        proof {
            assert(self@.contains_key(self.pending@[best as int].0));
        }
        Some(self.pending[best].1.deadline)
    }

    /// Removes and returns every window that is due at `now`. The others stay
    /// scheduled.
    pub fn take_due(&mut self, now: u64) -> (due: Vec<WindowId>)
        requires
            old(self).wf(),
        ensures
            final(self).wf(),
            due@.no_duplicates(),
            forall|w: WindowId| #[trigger]
                due@.contains(w) <==> old(self)@.contains_key(w) && old(self)@[w].deadline <= now,
            forall|w: WindowId| #[trigger]
                final(self)@.contains_key(w) <==> old(self)@.contains_key(w)
                    && old(self)@[w].deadline > now,
            forall|w: WindowId| #[trigger]
                final(self)@.contains_key(w) ==> final(self)@[w] == old(self)@[w],
            final(self).quiet_time() == old(self).quiet_time(),
            final(self).longest_delay() == old(self).longest_delay(),
    {
        let ghost all = self.pending@;
        let mut due: Vec<WindowId> = Vec::new();
        let mut left: Vec<(WindowId, Pending)> = Vec::new();
        // Where each window that is due, and each that is left, came from.
        let ghost mut due_from: Seq<int> = Seq::empty();
        let ghost mut left_from: Seq<int> = Seq::empty();
        let mut i: usize = 0;
        while i < self.pending.len()
            invariant
                i <= self.pending.len(),
                self.pending@ == all,
                due_from.len() == due@.len(),
                left_from.len() == left@.len(),
                forall|k: int|
                    0 <= k < due@.len() ==> 0 <= (#[trigger] due_from[k]) < i
                        && all[due_from[k]].0 == due@[k] && all[due_from[k]].1.deadline <= now,
                forall|k: int|
                    0 <= k < left@.len() ==> 0 <= (#[trigger] left_from[k]) < i
                        && all[left_from[k]] == left@[k] && left@[k].1.deadline > now,
                forall|k: int, l: int|
                    0 <= k < l < due_from.len() ==> (#[trigger] due_from[k]) < (
                    #[trigger] due_from[l]),
                forall|k: int, l: int|
                    0 <= k < l < left_from.len() ==> (#[trigger] left_from[k]) < (
                    #[trigger] left_from[l]),
                forall|j: int|
                    0 <= j < i ==> if (#[trigger] all[j]).1.deadline <= now {
                        due@.contains(all[j].0)
                    } else {
                        left@.contains(all[j])
                    },
            decreases self.pending.len() - i,
        {
            let entry: (WindowId, Pending) = self.pending[i];
            let ghost (due_before, left_before) = (due@, left@);
            if entry.1.deadline <= now as u128 {
                due.push(entry.0);
                proof {
                    due_from = due_from.push(i as int);
                    assert(due@[due@.len() - 1] == entry.0);
                }
            } else {
                left.push(entry);
                proof {
                    left_from = left_from.push(i as int);
                    assert(left@[left@.len() - 1] == entry);
                }
            }
            proof {
                assert forall|j: int| 0 <= j < i + 1 implies if (#[trigger] all[j]).1.deadline
                    <= now {
                    due@.contains(all[j].0)
                } else {
                    left@.contains(all[j])
                } by {
                    if j < i {
                        if all[j].1.deadline <= now {
                            let k = due_before.index_of(all[j].0);
                            assert(due@[k] == all[j].0);
                        } else {
                            let k = left_before.index_of(all[j]);
                            assert(left@[k] == all[j]);
                        }
                    }
                }
            }
            i = i + 1;
        }
        self.pending = left;
        proof {
            lemma_entry_map(all);
            assert forall|k: int, l: int| 0 <= k < l < left@.len() implies (#[trigger] left@[k]).0
                != (#[trigger] left@[l]).0 by {
                assert(all[left_from[k]].0 != all[left_from[l]].0);
            }
            lemma_entry_map(left@);
            assert forall|k: int, l: int| 0 <= k < l < due@.len() implies due@[k] != due@[l] by {
                assert(all[due_from[k]].0 != all[due_from[l]].0);
            }
            assert forall|w: WindowId| #[trigger] due@.contains(w) <==> entry_map(all).contains_key(
                w,
            ) && entry_map(all)[w].deadline <= now by {
                if due@.contains(w) {
                    let k = due@.index_of(w);
                    assert(all[due_from[k]].0 == w);
                }
                if entry_map(all).contains_key(w) && entry_map(all)[w].deadline <= now {
                    let j = choose|j: int| 0 <= j < all.len() && (#[trigger] all[j]).0 == w;
                    assert(due@.contains(all[j].0));
                }
            }
            assert forall|w: WindowId| #[trigger]
                entry_map(left@).contains_key(w) <==> entry_map(all).contains_key(w)
                    && entry_map(all)[w].deadline > now by {
                if entry_map(left@).contains_key(w) {
                    let k = choose|k: int| 0 <= k < left@.len() && (#[trigger] left@[k]).0 == w;
                    assert(all[left_from[k]].0 == w);
                }
                if entry_map(all).contains_key(w) && entry_map(all)[w].deadline > now {
                    let j = choose|j: int| 0 <= j < all.len() && (#[trigger] all[j]).0 == w;
                    assert(left@.contains(all[j]));
                    let k = left@.index_of(all[j]);
                    assert(left@[k].0 == w);
                }
            }
            assert forall|w: WindowId| #[trigger]
                entry_map(left@).contains_key(w) implies entry_map(left@)[w]
                == entry_map(all)[w] by {
                let k = choose|k: int| 0 <= k < left@.len() && (#[trigger] left@[k]).0 == w;
                assert(all[left_from[k]] == left@[k]);
            }
        }
        due
    }

    /// Drops the walk scheduled for `window`, if there is one.
    pub fn discard(&mut self, window: WindowId)
        requires
            old(self).wf(),
        ensures
            final(self).wf(),
            final(self)@ == old(self)@.remove(window),
            final(self).quiet_time() == old(self).quiet_time(),
            final(self).longest_delay() == old(self).longest_delay(),
    {
        let i: usize = self.place(window);
        let ghost before = self.pending@;
        proof {
            lemma_entry_map(before);
        }
        if i < self.pending.len() {
            self.pending.remove(i);
            proof {
                let after = self.pending@;
                let wanted = entry_map(before).remove(window);
                assert forall|j: int, k: int| 0 <= j < k < after.len() implies (
                #[trigger] after[j]).0 != (#[trigger] after[k]).0 by {
                    let (p, q) = (
                        if j < i {
                            j
                        } else {
                            j + 1
                        },
                        if k < i {
                            k
                        } else {
                            k + 1
                        },
                    );
                    assert(before[p].0 != before[q].0);
                }
                assert forall|j: int| 0 <= j < after.len() implies wanted.contains_key(
                    (#[trigger] after[j]).0,
                ) && wanted[after[j].0] == after[j].1 by {
                    let p = if j < i {
                        j
                    } else {
                        j + 1
                    };
                    assert(before[p] == after[j]);
                    if p < i {
                        assert(before[p].0 != before[i as int].0);
                    } else {
                        assert(before[i as int].0 != before[p].0);
                    }
                }
                assert forall|w: WindowId| #[trigger] wanted.contains_key(w) implies has_entry(
                    after,
                    w,
                ) by {
                    let p = choose|p: int| 0 <= p < before.len() && (#[trigger] before[p]).0 == w;
                    if p < i {
                        assert(after[p].0 == w);
                    } else {
                        assert(after[p - 1].0 == w);
                    }
                }
                lemma_stands_for(after, wanted);
            }
        } else {
            proof {
                if entry_map(before).contains_key(window) {
                    let j = choose|j: int| 0 <= j < before.len() && (#[trigger] before[j]).0
                        == window;
                    assert(before[j].0 != window);
                }
                assert(entry_map(before).remove(window) =~= entry_map(before));
            }
        }
    }
}

} // verus!
