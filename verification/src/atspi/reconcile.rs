//! The identity of a toplevel window on the accessibility bus, and the difference
//! between tracked and discovered windows by it.

use crate::reconcile::missing;
use crate::reconcile::WindowDiff;
use crate::strings::same;
use vstd::prelude::*;

verus! {

/// Stable identity of a toplevel window: its application's unique bus name and
/// the frame's object path. Object paths repeat across applications, so both
/// are needed to tell two applications' windows apart.
#[derive(Debug, Clone, PartialEq, Eq, Hash)]
pub struct WindowKey {
    pub bus_name: String,
    pub path: String,
}

impl View for WindowKey {
    type V = (Seq<char>, Seq<char>);

    open spec fn view(&self) -> (Seq<char>, Seq<char>) {
        (self.bus_name@, self.path@)
    }
}

/// The identities in a list of keys.
pub open spec fn key_views(keys: Seq<WindowKey>) -> Seq<(Seq<char>, Seq<char>)> {
    keys.map_values(|k: WindowKey| k@)
}

fn contains_key(keys: &[WindowKey], key: &WindowKey) -> (found: bool)
    ensures
        found == key_views(keys@).contains(key@),
{
    for i in 0..keys.len()
        invariant
            forall|j: int| 0 <= j < i ==> (#[trigger] keys@[j])@ != key@,
    {
        if same(keys[i].bus_name.as_str(), key.bus_name.as_str()) && same(
            keys[i].path.as_str(),
            key.path.as_str(),
        ) {
            assert(key_views(keys@)[i as int] == key@);
            return true;
        }
    }
    assert forall|j: int| 0 <= j < keys@.len() implies key_views(keys@)[j] != key@ by {
        assert(keys@[j]@ != key@);
    }
    false
}

fn missing_from(keys: &[WindowKey], others: &[WindowKey]) -> (indices: Vec<usize>)
    ensures
        indices@ == missing(key_views(keys@), key_views(others@)),
{
    let ghost (all, rest) = (key_views(keys@), key_views(others@));
    let mut indices: Vec<usize> = Vec::new();
    for i in 0..keys.len()
        invariant
            all == key_views(keys@),
            rest == key_views(others@),
            indices@ == missing(all.take(i as int), rest),
    {
        assert(all.take(i + 1).drop_last() =~= all.take(i as int));
        assert(all.take(i + 1).last() == keys@[i as int]@);
        if !contains_key(others, &keys[i]) {
            indices.push(i);
        }
    }
    assert(all.take(keys@.len() as int) =~= all);
    indices
}

/// Which of the discovered windows are not tracked, and which of the tracked ones
/// were not discovered.
pub fn reconcile_windows(held: &[WindowKey], discovered: &[WindowKey]) -> (diff: WindowDiff)
    ensures
        diff.added@ == missing(key_views(discovered@), key_views(held@)),
        diff.removed@ == missing(key_views(held@), key_views(discovered@)),
{
    WindowDiff {
        added: missing_from(discovered, held),
        removed: missing_from(held, discovered),
    }
}

} // verus!
