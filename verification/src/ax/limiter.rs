//! Rate limiting of refreshes, per node: leading edge plus trailing.
//!
//! The first change of a burst is passed at once, which is what makes typing feel
//! live; the rest of the burst collapses into one refresh, due when the node has
//! been quiet for the minimum interval, but never put off beyond the longest
//! delay. Times are counts of milliseconds from one origin.

use crate::atspi::coalesce::Pending;
use crate::ax::element::ElementKey;
use crate::messages::WindowId;
use crate::search::find_first;
use crate::search::lemma_found;
use crate::search::lemma_not_found;
use vstd::prelude::*;

verus! {

/// The least time between two refreshes of one node.
pub const REFRESH_MIN_INTERVAL: u64 = 100;

/// The longest that a node which keeps changing waits for its refresh.
pub const REFRESH_MAX_DELAY: u64 = 500;

/// What is known of a node that was refreshed.
#[derive(Debug, Clone, Copy, PartialEq, Eq, Structural)]
pub struct Entry {
    pub window: WindowId,
    pub key: ElementKey,
    /// When it was refreshed last.
    pub last: u64,
    /// The refresh that is due, if one is.
    pub trailing: Option<Pending>,
}

/// Limits how often a node is refreshed.
pub struct NodeRefreshLimiter {
    pub entries: Vec<Entry>,
    pub min_interval: u64,
    pub max_delay: u64,
}

/// Whether an entry is of a node.
pub open spec fn entry_of(window: WindowId, key: ElementKey) -> spec_fn(Entry) -> bool {
    |e: Entry| e.window == window && e.key == key
}

/// Whether a change of a node is passed at once: nothing is due for it, and its
/// last refresh is long enough ago.
pub open spec fn passes(entry: Entry, min_interval: u64, now: u64) -> bool {
    entry.trailing is None && entry.last + min_interval <= now
}

/// The refresh that is due after a change that was not passed at once.
pub open spec fn put_off(entry: Entry, min_interval: u64, max_delay: u64, now: u64) -> Pending {
    let latest = match entry.trailing {
        Some(pending) => pending.latest as int,
        None => now + max_delay,
    };
    Pending {
        deadline: (if now + min_interval <= latest {
            now + min_interval
        } else {
            latest
        }) as u128,
        latest: latest as u128,
    }
}

/// A node's entry after a change of it.
pub open spec fn changed_entry(entry: Entry, min_interval: u64, max_delay: u64, now: u64) -> Entry {
    if passes(entry, min_interval, now) {
        Entry { last: now, ..entry }
    } else {
        Entry { trailing: Some(put_off(entry, min_interval, max_delay, now)), ..entry }
    }
}

/// Whether the refresh of a node is due.
pub open spec fn is_due(entry: Entry, now: u64) -> bool {
    entry.trailing matches Some(pending) && pending.deadline <= now
}

/// The nodes, in order, whose refresh is due.
pub open spec fn due_nodes(entries: Seq<Entry>, now: u64) -> Seq<(WindowId, ElementKey)>
    decreases entries.len(),
{
    if entries.len() == 0 {
        Seq::empty()
    } else {
        let before = due_nodes(entries.drop_last(), now);
        if is_due(entries.last(), now) {
            before.push((entries.last().window, entries.last().key))
        } else {
            before
        }
    }
}

/// An entry after the refreshes that are due were taken.
pub open spec fn taken_entry(entry: Entry, now: u64) -> Entry {
    if is_due(entry, now) {
        Entry { last: now, trailing: None, ..entry }
    } else {
        entry
    }
}

/// The entries, in order, of all windows but one.
pub open spec fn without_window(entries: Seq<Entry>, window: WindowId) -> Seq<Entry>
    decreases entries.len(),
{
    if entries.len() == 0 {
        Seq::empty()
    } else {
        let before = without_window(entries.drop_last(), window);
        if entries.last().window == window {
            before
        } else {
            before.push(entries.last())
        }
    }
}

impl NodeRefreshLimiter {
    pub fn new(min_interval: u64, max_delay: u64) -> (limiter: Self)
        ensures
            limiter.entries@ == Seq::<Entry>::empty(),
            limiter.min_interval == min_interval,
            limiter.max_delay == max_delay,
    {
        NodeRefreshLimiter { entries: Vec::new(), min_interval, max_delay }
    }

    /// Where the entry of a node is.
    fn place(&self, window: WindowId, key: ElementKey) -> (found: Option<usize>)
        ensures
            match found {
                Some(i) => i < self.entries@.len() && find_first(
                    self.entries@,
                    entry_of(window, key),
                ) == Some(i as int) && entry_of(window, key)(self.entries@[i as int]),
                None => find_first(self.entries@, entry_of(window, key)) is None,
            },
    {
        let ghost fits = entry_of(window, key);
        for i in 0..self.entries.len()
            invariant
                fits == entry_of(window, key),
                forall|j: int| 0 <= j < i ==> !fits(#[trigger] self.entries@[j]),
        {
            if self.entries[i].window == window && self.entries[i].key == key {
                proof {
                    lemma_found(self.entries@, fits, i as int);
                }
                return Some(i);
            }
        }
        proof {
            lemma_not_found(self.entries@, fits);
        }
        None
    }

    /// Takes in a change of a node: `true` if it is to be refreshed at once, `false`
    /// if a refresh is due for it later.
    pub fn note(&mut self, window: WindowId, key: ElementKey, now: u64) -> (at_once: bool)
        ensures
            final(self).min_interval == old(self).min_interval,
            final(self).max_delay == old(self).max_delay,
            match find_first(old(self).entries@, entry_of(window, key)) {
                Some(i) => {
                    let entry = old(self).entries@[i];
                    &&& at_once == passes(entry, old(self).min_interval, now)
                    &&& final(self).entries@ == old(self).entries@.update(
                        i,
                        changed_entry(entry, old(self).min_interval, old(self).max_delay, now),
                    )
                },
                None => at_once && final(self).entries@ == old(self).entries@.push(
                    Entry { window, key, last: now, trailing: None },
                ),
            },
    {
        match self.place(window, key) {
            Some(i) => {
                let mut entry: Entry = self.entries[i];
                let pass: bool = match entry.trailing {
                    Some(_) => false,
                    None => entry.last <= now && self.min_interval <= now - entry.last,
                };
                if pass {
                    entry.last = now;
                } else {
                    let latest: u128 = match entry.trailing {
                        Some(pending) => pending.latest,
                        None => now as u128 + self.max_delay as u128,
                    };
                    let due: u128 = now as u128 + self.min_interval as u128;
                    let deadline: u128 = if due <= latest {
                        due
                    } else {
                        latest
                    };
                    entry.trailing = Some(Pending { deadline, latest });
                }
                self.entries.set(i, entry);
                pass
            },
            None => {
                self.entries.push(Entry { window, key, last: now, trailing: None });
                true
            },
        }
    }

    /// Takes the refreshes that are due. Each counts as made now.
    pub fn take_due(&mut self, now: u64) -> (due: Vec<(WindowId, ElementKey)>)
        ensures
            due@ == due_nodes(old(self).entries@, now),
            final(self).entries@ == old(self).entries@.map_values(
                |e: Entry| taken_entry(e, now),
            ),
            final(self).min_interval == old(self).min_interval,
            final(self).max_delay == old(self).max_delay,
    {
        let ghost all = self.entries@;
        let ghost wanted = all.map_values(|e: Entry| taken_entry(e, now));
        let mut due: Vec<(WindowId, ElementKey)> = Vec::new();
        let count: usize = self.entries.len();
        assert(all.take(0) =~= Seq::<Entry>::empty());
        for i in 0..count
            invariant
                count == all.len(),
                wanted == all.map_values(|e: Entry| taken_entry(e, now)),
                self.entries@ == wanted.take(i as int) + all.skip(i as int),
                due@ == due_nodes(all.take(i as int), now),
                self.min_interval == old(self).min_interval,
                self.max_delay == old(self).max_delay,
        {
            assert(all.take(i + 1).drop_last() =~= all.take(i as int));
            let mut entry: Entry = self.entries[i];
            assert(entry == all[i as int]);
            let ready: bool = match entry.trailing {
                Some(pending) => pending.deadline <= now as u128,
                None => false,
            };
            if ready {
                due.push((entry.window, entry.key));
                entry.last = now;
                entry.trailing = None;
                self.entries.set(i, entry);
            }
            assert(self.entries@ =~= wanted.take(i + 1) + all.skip(i + 1));
        }
        assert(all.take(all.len() as int) =~= all);
        assert(self.entries@ =~= wanted);
        due
    }

    /// Forgets the nodes of a window that is gone.
    pub fn discard(&mut self, window: WindowId)
        ensures
            final(self).entries@ == without_window(old(self).entries@, window),
            final(self).min_interval == old(self).min_interval,
            final(self).max_delay == old(self).max_delay,
    {
        let ghost all = self.entries@;
        let mut kept: Vec<Entry> = Vec::new();
        assert(all.take(0) =~= Seq::<Entry>::empty());
        for i in 0..self.entries.len()
            invariant
                all == self.entries@,
                kept@ == without_window(all.take(i as int), window),
        {
            assert(all.take(i + 1).drop_last() =~= all.take(i as int));
            if self.entries[i].window != window {
                kept.push(self.entries[i]);
            }
        }
        assert(all.take(all.len() as int) =~= all);
        self.entries = kept;
    }
}

/// A node's entry after a series of changes.
pub open spec fn after_changes(
    entry: Entry,
    min_interval: u64,
    max_delay: u64,
    times: Seq<u64>,
) -> Entry
    decreases times.len(),
{
    if times.len() == 0 {
        entry
    } else {
        changed_entry(
            after_changes(entry, min_interval, max_delay, times.drop_last()),
            min_interval,
            max_delay,
            times.last(),
        )
    }
}

/// A node that keeps changing is refreshed all the same: once a change was put
/// off, however many follow, its refresh is due at the longest delay after it at
/// the latest.
pub proof fn law_a_changing_node_is_refreshed_in_time(
    entry: Entry,
    min_interval: u64,
    max_delay: u64,
    times: Seq<u64>,
)
    requires
        entry.trailing matches Some(pending) && pending.deadline <= pending.latest,
    ensures
        after_changes(entry, min_interval, max_delay, times).trailing matches Some(pending)
            && pending.latest == entry.trailing.unwrap().latest && pending.deadline
            <= pending.latest,
    decreases times.len(),
{
    if times.len() > 0 {
        let init = times.drop_last();
        law_a_changing_node_is_refreshed_in_time(entry, min_interval, max_delay, init);
    }
}

/// The refreshes that are taken are those of the entries whose time has come, in their
/// order. Those are refreshed now and due no more; every other entry stays as it is.
pub proof fn law_due_refreshes_are_taken(entries: Seq<Entry>, now: u64, i: int)
    ensures
        due_nodes(entries, now) == entries.filter(
            |e: Entry| e.trailing is Some && e.trailing->0.deadline <= now,
        ).map_values(|e: Entry| (e.window, e.key)),
        0 <= i < entries.len() ==> {
            let (before, after) = (entries[i], taken_entry(entries[i], now));
            &&& after.window == before.window
            &&& after.key == before.key
            &&& if before.trailing is Some && before.trailing->0.deadline <= now {
                after.last == now && after.trailing is None
            } else {
                after == before
            }
        },
    decreases entries.len(),
{
    reveal(Seq::filter);
    let due = |e: Entry| e.trailing is Some && e.trailing->0.deadline <= now;
    let node = |e: Entry| (e.window, e.key);
    if entries.len() > 0 {
        let init = entries.drop_last();
        law_due_refreshes_are_taken(init, now, 0);
        let before = init.filter(due);
        if due(entries.last()) {
            assert(before.push(entries.last()).map_values(node) =~= before.map_values(node).push(
                (entries.last().window, entries.last().key),
            ));
        }
    } else {
        assert(entries.filter(due).map_values(node) =~= Seq::empty());
    }
}

/// Nothing is kept of a window that is discarded, and everything of the others, in its
/// order.
pub proof fn law_only_the_discarded_window_is_forgotten(entries: Seq<Entry>, window: WindowId)
    ensures
        without_window(entries, window) == entries.filter(|e: Entry| e.window != window),
    decreases entries.len(),
{
    reveal(Seq::filter);
    if entries.len() > 0 {
        law_only_the_discarded_window_is_forgotten(entries.drop_last(), window);
    }
}

/// A change is passed at once if nothing is due for the node and its last refresh is at
/// least the interval ago, and then counts as its refresh. Any other change puts the
/// refresh off: until the interval has passed since, but never past the latest time
/// that the first change of a burst set.
pub proof fn law_changes_wait_for_the_interval(
    entry: Entry,
    min_interval: u64,
    max_delay: u64,
    now: u64,
)
    ensures
        ({
            let after = changed_entry(entry, min_interval, max_delay, now);
            &&& passes(entry, min_interval, now) <==> entry.trailing is None && now - entry.last
                >= min_interval
            &&& after.window == entry.window
            &&& after.key == entry.key
            &&& passes(entry, min_interval, now) ==> after.last == now && after.trailing is None
            &&& !passes(entry, min_interval, now) ==> {
                &&& after.last == entry.last
                &&& after.trailing is Some
                &&& entry.trailing is Some ==> after.trailing->0.latest
                    == entry.trailing->0.latest
                &&& entry.trailing is None ==> after.trailing->0.latest == now + max_delay
                &&& after.trailing->0.deadline <= after.trailing->0.latest
                &&& after.trailing->0.deadline <= now + min_interval
                &&& after.trailing->0.deadline == after.trailing->0.latest
                    || after.trailing->0.deadline == now + min_interval
            }
        }),
{
}

} // verus!
