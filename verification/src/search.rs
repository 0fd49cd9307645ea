//! Finding the first element of a sequence with a property.

use vstd::prelude::*;

verus! {

/// Whether element `i` is the first with a property.
pub open spec fn first_match<T>(all: Seq<T>, fits: spec_fn(T) -> bool, i: int) -> bool {
    &&& 0 <= i < all.len()
    &&& fits(all[i])
    &&& forall|j: int| 0 <= j < i ==> !fits(#[trigger] all[j])
}

/// Where the first element with a property is.
pub open spec fn find_first<T>(all: Seq<T>, fits: spec_fn(T) -> bool) -> Option<int> {
    if exists|i: int| #[trigger] first_match(all, fits, i) {
        Some(choose|i: int| #[trigger] first_match(all, fits, i))
    } else {
        None
    }
}

pub proof fn lemma_found<T>(all: Seq<T>, fits: spec_fn(T) -> bool, i: int)
    requires
        first_match(all, fits, i),
    ensures
        find_first(all, fits) == Some(i),
{
    let k = choose|k: int| #[trigger] first_match(all, fits, k);
    assert(first_match(all, fits, k));
    if k < i {
        assert(!fits(all[k]));
    }
    if i < k {
        assert(!fits(all[i]));
    }
}

pub proof fn lemma_not_found<T>(all: Seq<T>, fits: spec_fn(T) -> bool)
    requires
        forall|j: int| 0 <= j < all.len() ==> !fits(#[trigger] all[j]),
    ensures
        find_first(all, fits) is None,
{
}

/// Where an element has a property, there is a first one that has it.
pub proof fn lemma_some_first<T>(all: Seq<T>, fits: spec_fn(T) -> bool, i: int)
    requires
        0 <= i < all.len(),
        fits(all[i]),
    ensures
        find_first(all, fits) is Some,
        find_first(all, fits)->0 <= i,
    decreases i,
{
    if exists|j: int| 0 <= j < i && fits(#[trigger] all[j]) {
        let j = choose|j: int| 0 <= j < i && fits(#[trigger] all[j]);
        lemma_some_first(all, fits, j);
    } else {
        lemma_found(all, fits, i);
    }
}

/// What is found has the property, nothing before it has, and something is found
/// wherever anything has it.
pub proof fn law_the_first_is_found<T>(all: Seq<T>, fits: spec_fn(T) -> bool, j: int)
    ensures
        find_first(all, fits) matches Some(i) ==> 0 <= i < all.len() && fits(all[i]),
        0 <= j < all.len() && fits(all[j]) ==> (find_first(all, fits) matches Some(i) && i <= j),
{
    if 0 <= j < all.len() && fits(all[j]) {
        lemma_some_first(all, fits, j);
    }
}

} // verus!
