//! The difference between the windows a source tracks and those it has just
//! discovered.

use vstd::prelude::*;

verus! {

/// The indices, in order, of those of `keys` that are not among `others`.
pub open spec fn missing<T>(keys: Seq<T>, others: Seq<T>) -> Seq<usize>
    decreases keys.len(),
{
    if keys.len() == 0 {
        Seq::empty()
    } else {
        let before = missing(keys.drop_last(), others);
        if others.contains(keys.last()) {
            before
        } else {
            before.push((keys.len() - 1) as usize)
        }
    }
}

/// An index is missing exactly when its key is not among the others.
pub proof fn lemma_missing<T>(keys: Seq<T>, others: Seq<T>, i: int)
    requires
        0 <= i < keys.len(),
        keys.len() <= usize::MAX,
    ensures
        missing(keys, others).contains(i as usize) <==> !others.contains(keys[i]),
    decreases keys.len(),
{
    let init = keys.drop_last();
    let n = keys.len() - 1;
    let (before, all) = (missing(init, others), missing(keys, others));
    lemma_missing_below(init, others);
    if i < n {
        lemma_missing(init, others, i);
        assert(init[i] == keys[i]);
        if before.contains(i as usize) {
            let j = before.index_of(i as usize);
            assert(all[j] == i as usize);
        }
        if all.contains(i as usize) {
            let j = all.index_of(i as usize);
            if j < before.len() {
                assert(before[j] == i as usize);
            }
        }
    } else {
        if !others.contains(keys[i]) {
            assert(all[before.len() as int] == n as usize);
        } else if all.contains(i as usize) {
            let j = all.index_of(i as usize);
            assert(before[j] < n);
        }
    }
}

/// A missing index is the index of a key.
pub proof fn lemma_missing_below<T>(keys: Seq<T>, others: Seq<T>)
    requires
        keys.len() <= usize::MAX,
    ensures
        forall|j: int|
            0 <= j < missing(keys, others).len() ==> (#[trigger] missing(keys, others)[j])
                < keys.len(),
    decreases keys.len(),
{
    if keys.len() > 0 {
        lemma_missing_below(keys.drop_last(), others);
        let before = missing(keys.drop_last(), others);
        assert forall|j: int| 0 <= j < missing(keys, others).len() implies (#[trigger] missing(
            keys,
            others,
        )[j]) < keys.len() by {
            if j < before.len() {
                assert(missing(keys, others)[j] == before[j]);
            }
        }
    }
}

/// What changed: which of the discovered windows are new, and which of the
/// tracked ones are gone, by index.
#[derive(Debug, Clone, PartialEq, Eq)]
pub struct WindowDiff {
    pub added: Vec<usize>,
    pub removed: Vec<usize>,
}

/// Nothing is added or removed if the same windows are discovered again.
pub proof fn law_identical_sets_produce_no_changes<T>(keys: Seq<T>)
    ensures
        missing(keys, keys) == Seq::<usize>::empty(),
{
    lemma_none_missing(keys, keys);
}

proof fn lemma_none_missing<T>(keys: Seq<T>, others: Seq<T>)
    requires
        forall|i: int| 0 <= i < keys.len() ==> others.contains(#[trigger] keys[i]),
    ensures
        missing(keys, others) == Seq::<usize>::empty(),
    decreases keys.len(),
{
    if keys.len() > 0 {
        let init = keys.drop_last();
        assert forall|i: int| 0 <= i < init.len() implies others.contains(#[trigger] init[i]) by {
            assert(keys[i] == init[i]);
        }
        lemma_none_missing(init, others);
        assert(others.contains(keys[keys.len() - 1]));
    }
}

/// The indices of the missing keys come in order, each once, and they are those of
/// the keys that are not among the others.
pub proof fn law_missing_keys_come_in_order<T>(keys: Seq<T>, others: Seq<T>, i: int)
    requires
        keys.len() <= usize::MAX,
    ensures
        0 <= i < keys.len() ==> (missing(keys, others).contains(i as usize) <==> !others.contains(
            keys[i],
        )),
        forall|j: int|
            0 <= j < missing(keys, others).len() ==> (#[trigger] missing(keys, others)[j])
                < keys.len(),
        forall|j: int, k: int|
            0 <= j < k < missing(keys, others).len() ==> (#[trigger] missing(keys, others)[j])
                < #[trigger] missing(keys, others)[k],
    decreases keys.len(),
{
    lemma_missing_below(keys, others);
    if 0 <= i < keys.len() {
        lemma_missing(keys, others, i);
    }
    if keys.len() > 0 {
        let init = keys.drop_last();
        law_missing_keys_come_in_order(init, others, 0);
        let (before, all) = (missing(init, others), missing(keys, others));
        assert forall|j: int, k: int| 0 <= j < k < all.len() implies (#[trigger] all[j]) < (
        #[trigger] all[k]) by {
            assert(all[j] == before[j]);
            if k < before.len() {
                assert(all[k] == before[k]);
            }
        }
    }
}

} // verus!
