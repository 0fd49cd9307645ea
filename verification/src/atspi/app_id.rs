//! The desktop-file-style application id of a process: a well-known session-bus
//! name it owns.

use crate::strings::comes_before;
use crate::strings::count_of;
use crate::strings::law_order_is_total;
use crate::strings::law_order_is_transitive;
use crate::strings::occurrences;
use crate::strings::precedes;
use crate::strings::starts_with;
use crate::strings::views;
use std::collections::HashMap;
use vstd::prelude::*;

verus! {

/// Whether a bus name can be an application id: well known (not a `:`-prefixed
/// unique name), reverse-DNS with at least two dots, and not under an
/// infrastructure prefix that desktop processes own alongside their own id.
pub open spec fn candidate(name: Seq<char>) -> bool {
    &&& !":"@.is_prefix_of(name)
    &&& !"org.freedesktop."@.is_prefix_of(name)
    &&& !"org.a11y."@.is_prefix_of(name)
    &&& !"org.gtk."@.is_prefix_of(name)
    &&& occurrences(name, '.') >= 2
}

/// Whether a bus name can be an application id; see [`candidate`].
pub fn is_candidate_name(name: &str) -> (result: bool)
    ensures
        result == candidate(name@),
{
    if starts_with(name, ":") {
        return false;
    }
    if starts_with(name, "org.freedesktop.") || starts_with(name, "org.a11y.") || starts_with(
        name,
        "org.gtk.",
    ) {
        return false;
    }
    count_of(name, '.') >= 2
}

/// Whether `name` is one of `names` and no other comes before it.
pub open spec fn first_of(names: Seq<Seq<char>>, name: Seq<char>) -> bool {
    &&& names.contains(name)
    &&& forall|i: int| 0 <= i < names.len() ==> !precedes(#[trigger] names[i], name)
}

/// There is only one first name.
pub proof fn law_first_is_unique(names: Seq<Seq<char>>, a: Seq<char>, b: Seq<char>)
    requires
        first_of(names, a),
        first_of(names, b),
    ensures
        a == b,
{
    let (i, j) = (names.index_of(a), names.index_of(b));
    assert(!precedes(names[i], b) && !precedes(names[j], a));
    law_order_is_total(a, b);
}

/// The deterministic pick among the candidate names one process owns: the
/// lexicographically first.
pub fn pick_app_id(candidates: Vec<String>) -> (picked: Option<String>)
    ensures
        picked is None <==> candidates@.len() == 0,
        picked matches Some(name) ==> first_of(views(candidates@), name@),
{
    if candidates.len() == 0 {
        return None;
    }
    let ghost all = views(candidates@);
    let mut best: usize = 0;
    let mut i: usize = 1;
    proof {
        law_order_is_total(all[0], all[0]);
    }
    while i < candidates.len()
        invariant
            best < i <= candidates.len(),
            all == views(candidates@),
            forall|j: int| 0 <= j < i ==> !precedes(#[trigger] all[j], all[best as int]),
        decreases candidates.len() - i,
    {
        if comes_before(candidates[i].as_str(), candidates[best].as_str()) {
            proof {
                let (now, was) = (all[i as int], all[best as int]);
                law_order_is_total(now, now);
                law_order_is_total(now, was);
                assert forall|j: int| 0 <= j < i + 1 implies !precedes(#[trigger] all[j], now) by {
                    if j < i && precedes(all[j], now) {
                        law_order_is_transitive(all[j], now, was);
                    }
                }
            }
            best = i;
        }
        i = i + 1;
    }
    assert(all[best as int] == candidates@[best as int]@);
    Some(candidates[best].clone())
}

/// What is known of a process's application id.
pub enum AppIdLookup {
    /// It was looked up before, and this is what was found.
    Known(Option<String>),
    /// The session bus has to be searched.
    Unknown,
}

/// The application ids found so far, by process. A process without one is
/// remembered too, so that the session bus is searched for it only once. Each
/// failure to open the session bus stands, so that it is tried only once.
pub struct AppIdResolver {
    cache: HashMap<u32, Option<String>>,
    session_failed: bool,
}

/// The contents of an optional text.
pub open spec fn found_view(found: Option<String>) -> Option<Seq<char>> {
    match found {
        Some(name) => Some(name@),
        None => None,
    }
}

impl AppIdResolver {
    /// What was found, by process.
    pub closed spec fn found(&self) -> Map<u32, Option<Seq<char>>> {
        self.cache@.map_values(|found: Option<String>| found_view(found))
    }

    /// Whether the session bus could not be opened.
    pub closed spec fn failed(&self) -> bool {
        self.session_failed
    }

    pub fn new() -> (resolver: Self)
        ensures
            resolver.found() == Map::<u32, Option<Seq<char>>>::empty(),
            !resolver.failed(),
    {
        let resolver = AppIdResolver { cache: HashMap::new(), session_failed: false };
        assert(resolver.found() =~= Map::<u32, Option<Seq<char>>>::empty());
        resolver
    }

    /// What is known of the application id of `pid`.
    pub fn lookup(&self, pid: u32) -> (known: AppIdLookup)
        ensures
            match known {
                AppIdLookup::Known(found) => self.found().contains_key(pid) && found_view(found)
                    == self.found()[pid],
                AppIdLookup::Unknown => !self.found().contains_key(pid),
            },
    {
        broadcast use vstd::std_specs::hash::group_hash_axioms;

        match self.cache.get(&pid) {
            Some(found) => match found {
                Some(name) => AppIdLookup::Known(Some(name.clone())),
                None => AppIdLookup::Known(None),
            },
            None => AppIdLookup::Unknown,
        }
    }

    /// Records what the search for `pid` came to: the pick among the candidates
    /// it owns, which is also returned.
    pub fn record(&mut self, pid: u32, owned: Vec<String>) -> (picked: Option<String>)
        ensures
            picked is None <==> owned@.len() == 0,
            picked matches Some(name) ==> first_of(views(owned@), name@),
            final(self).found() == old(self).found().insert(pid, found_view(picked)),
            final(self).failed() == old(self).failed(),
    {
        broadcast use vstd::std_specs::hash::group_hash_axioms;

        let picked: Option<String> = pick_app_id(owned);
        let kept: Option<String> = match &picked {
            Some(name) => Some(name.clone()),
            None => None,
        };
        self.cache.insert(pid, kept);
        assert(self.found() =~= old(self).found().insert(pid, found_view(picked)));
        picked
    }

    /// Whether the session bus is still to be tried.
    pub fn may_open_session(&self) -> (open: bool)
        ensures
            open == !self.failed(),
    {
        !self.session_failed
    }

    /// Records that the session bus could not be opened.
    pub fn note_session_failed(&mut self)
        ensures
            final(self).failed(),
            final(self).found() == old(self).found(),
    {
        self.session_failed = true;
    }
}

impl Default for AppIdResolver {
    fn default() -> (resolver: Self)
        ensures
            resolver.found() == Map::<u32, Option<Seq<char>>>::empty(),
            !resolver.failed(),
    {
        Self::new()
    }
}

/// A name that can be an application's has two dots, and is neither a unique name nor one
/// of the desktop's own.
pub proof fn law_what_names_an_application(name: Seq<char>, rest: Seq<char>)
    ensures
        candidate(name) ==> occurrences(name, '.') >= 2 && (name[0] != ':' || name.len() == 0),
        !candidate("org.freedesktop."@ + rest),
        !candidate("org.a11y."@ + rest),
        !candidate("org.gtk."@ + rest),
        occurrences(name, '.') >= 2 && !":"@.is_prefix_of(name) && !"org."@.is_prefix_of(name)
            ==> candidate(name),
{
    reveal_strlit(":");
    reveal_strlit("org.");
    reveal_strlit("org.freedesktop.");
    reveal_strlit("org.a11y.");
    reveal_strlit("org.gtk.");
    let (a, b, c) = ("org.freedesktop."@, "org.a11y."@, "org.gtk."@);
    assert((a + rest).take(a.len() as int) =~= a);
    assert((b + rest).take(b.len() as int) =~= b);
    assert((c + rest).take(c.len() as int) =~= c);
    assert(a.is_prefix_of(a + rest));
    assert(b.is_prefix_of(b + rest));
    assert(c.is_prefix_of(c + rest));
    assert(":"@.len() == 1 && ":"@[0] == ':');
    if name.len() > 0 && name[0] == ':' {
        assert(name.take(1) =~= ":"@);
        assert(":"@.is_prefix_of(name));
    }
    let org = "org."@;
    assert(a.take(4) =~= org);
    assert(b.take(4) =~= org);
    assert(c.take(4) =~= org);
    if a.is_prefix_of(name) || b.is_prefix_of(name) || c.is_prefix_of(name) {
        if a.is_prefix_of(name) {
            assert(name.take(4) =~= name.take(a.len() as int).take(4));
        } else if b.is_prefix_of(name) {
            assert(name.take(4) =~= name.take(b.len() as int).take(4));
        } else {
            assert(name.take(4) =~= name.take(c.len() as int).take(4));
        }
        assert(org.is_prefix_of(name));
    }
}

} // verus!
