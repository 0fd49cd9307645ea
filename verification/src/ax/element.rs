//! Element identity.
//!
//! An element has no printable id. What it has is equality of references: two
//! references to the same object compare equal. The reading layer numbers the
//! references it holds by that equality, and an [`ElementKey`] is such a number
//! together with the owning process.

use crate::tree::NodeId;
use std::collections::HashMap;
use std::collections::HashSet;
use vstd::prelude::*;

verus! {

/// A node's identity, and the handle it is read again by.
///
/// The owning process is part of the identity: element numbers are only unique
/// within one.
#[derive(Debug, Clone, Copy, PartialEq, Eq, Hash, Structural)]
pub struct ElementKey {
    pid: i32,
    element: u64,
}

/// 2 to the power of 64.
pub const SPAN: u128 = 0x1_0000_0000_0000_0000;

impl ElementKey {
    /// The owning process.
    pub closed spec fn owner(self) -> i32 {
        self.pid
    }

    /// The number of the element within it.
    pub closed spec fn number(self) -> u64 {
        self.element
    }

    /// The key as one number.
    pub closed spec fn code(self) -> u128 {
        ((self.pid + 0x8000_0000) * SPAN + self.element) as u128
    }

    /// Different keys have different codes.
    pub proof fn lemma_code(self, other: ElementKey)
        requires
            self.code() == other.code(),
        ensures
            self == other,
    {
        let (a, b) = (self.pid + 0x8000_0000, other.pid + 0x8000_0000);
        assert(a * SPAN + self.element <= u128::MAX) by (nonlinear_arith)
            requires
                0 <= a <= 0xffff_ffff,
                0 <= self.element <= 0xffff_ffff_ffff_ffff,
        ;
        assert(b * SPAN + other.element <= u128::MAX) by (nonlinear_arith)
            requires
                0 <= b <= 0xffff_ffff,
                0 <= other.element <= 0xffff_ffff_ffff_ffff,
        ;
        assert(a == b) by (nonlinear_arith)
            requires
                a * 0x1_0000_0000_0000_0000 + self.element == b * 0x1_0000_0000_0000_0000
                    + other.element,
                0 <= self.element < 0x1_0000_0000_0000_0000,
                0 <= other.element < 0x1_0000_0000_0000_0000,
        ;
    }

    /// Keys are the same when process and element are.
    pub proof fn law_a_key_is_its_process_and_element(self, other: ElementKey)
        ensures
            self == other <==> self.owner() == other.owner() && self.number() == other.number(),
    {
    }

    pub fn new(pid: i32, element: u64) -> (key: Self)
        ensures
            key.owner() == pid,
            key.number() == element,
    {
        Self { pid, element }
    }

    /// The number of the element, for the layer that reads it.
    pub fn element(&self) -> (element: u64)
        ensures
            element == self.number(),
    {
        self.element
    }

    /// The owning process.
    pub fn pid(&self) -> (pid: i32)
        ensures
            pid == self.owner(),
    {
        self.pid
    }

    fn to_code(self) -> (code: u128)
        ensures
            code == self.code(),
    {
        let high: u128 = (self.pid as i64 + 0x8000_0000) as u128;
        assert(high * SPAN + self.element <= u128::MAX) by (nonlinear_arith)
            requires
                0 <= high <= 0xffff_ffff,
                0 <= self.element <= 0xffff_ffff_ffff_ffff,
        ;
        high * SPAN + self.element as u128
    }
}

// ---------------------------------------------------------------- sets and maps

/// A set of elements.
pub struct ElementSet {
    codes: HashSet<u128>,
}

impl View for ElementSet {
    type V = Set<ElementKey>;

    closed spec fn view(&self) -> Set<ElementKey> {
        Set::new(|key: ElementKey| self.codes@.contains(key.code()))
    }
}

impl ElementSet {
    pub fn new() -> (set: Self)
        ensures
            set@ == Set::<ElementKey>::empty(),
    {
        let set = ElementSet { codes: HashSet::new() };
        assert(set@ =~= Set::<ElementKey>::empty());
        set
    }

    /// Adds an element; `false` if it was there already.
    pub fn insert(&mut self, key: ElementKey) -> (new: bool)
        ensures
            final(self)@ == old(self)@.insert(key),
            new == !old(self)@.contains(key),
    {
        broadcast use vstd::std_specs::hash::group_hash_axioms;

        let new: bool = self.codes.insert(key.to_code());
        proof {
            assert forall|other: ElementKey| self@.contains(other) == old(self)@.insert(
                key,
            ).contains(other) by {
                if other.code() == key.code() {
                    other.lemma_code(key);
                }
            }
            assert(self@ =~= old(self)@.insert(key));
        }
        new
    }

    pub fn contains(&self, key: ElementKey) -> (found: bool)
        ensures
            found == self@.contains(key),
    {
        broadcast use vstd::std_specs::hash::group_hash_axioms;

        self.codes.contains(&key.to_code())
    }

    /// The set of all of `keys`.
    pub fn of(keys: &[ElementKey]) -> (set: Self)
        ensures
            set@ == keys@.to_set(),
    {
        let mut set = ElementSet::new();
        for i in 0..keys.len()
            invariant
                set@ == keys@.take(i as int).to_set(),
        {
            set.insert(keys[i]);
            proof {
                let (shorter, longer) = (keys@.take(i as int), keys@.take(i + 1));
                assert(longer =~= shorter.push(keys@[i as int]));
                assert forall|k: ElementKey| longer.contains(k) <==> shorter.contains(k) || k
                    == keys@[i as int] by {
                    if longer.contains(k) {
                        let j = longer.index_of(k);
                        if j < i {
                            assert(shorter[j] == k);
                        }
                    }
                    if shorter.contains(k) {
                        let j = shorter.index_of(k);
                        assert(longer[j] == k);
                    }
                    assert(longer[i as int] == keys@[i as int]);
                }
                assert(longer.to_set() =~= shorter.to_set().insert(keys@[i as int]));
            }
        }
        assert(keys@.take(keys@.len() as int) =~= keys@);
        set
    }
}

/// Lists of elements, by element.
pub struct ChildMap {
    lists: HashMap<u128, Vec<ElementKey>>,
}

impl View for ChildMap {
    type V = Map<ElementKey, Seq<ElementKey>>;

    closed spec fn view(&self) -> Map<ElementKey, Seq<ElementKey>> {
        Map::new(
            |key: ElementKey| self.lists@.contains_key(key.code()),
            |key: ElementKey| self.lists@[key.code()]@,
        )
    }
}

impl ChildMap {
    pub fn new() -> (map: Self)
        ensures
            map@ == Map::<ElementKey, Seq<ElementKey>>::empty(),
    {
        let map = ChildMap { lists: HashMap::new() };
        assert(map@ =~= Map::<ElementKey, Seq<ElementKey>>::empty());
        map
    }

    pub fn insert(&mut self, key: ElementKey, list: Vec<ElementKey>)
        ensures
            final(self)@ == old(self)@.insert(key, list@),
    {
        broadcast use vstd::std_specs::hash::group_hash_axioms;

        self.lists.insert(key.to_code(), list);
        proof {
            assert forall|other: ElementKey| self@.contains_key(other) == old(self)@.insert(
                key,
                list@,
            ).contains_key(other) && (self@.contains_key(other) ==> self@[other] == old(
                self,
            )@.insert(key, list@)[other]) by {
                if other.code() == key.code() {
                    other.lemma_code(key);
                }
            }
            assert(self@ =~= old(self)@.insert(key, list@));
        }
    }

    pub fn get(&self, key: ElementKey) -> (list: Option<&Vec<ElementKey>>)
        ensures
            match list {
                Some(l) => self@.contains_key(key) && l@ == self@[key],
                None => !self@.contains_key(key),
            },
    {
        broadcast use vstd::std_specs::hash::group_hash_axioms;

        self.lists.get(&key.to_code())
    }
}

// ---------------------------------------------------------------- node ids

/// What a node id stands for: an element, or one of the text runs under it.
#[derive(Debug, Clone, Copy, PartialEq, Eq, Structural)]
pub enum Owner {
    Element(ElementKey),
    Run { parent: NodeId, index: usize },
}

/// The owners of ids after `owner` has been given one, if it had none: the next.
pub open spec fn with_owner(owners: Seq<Owner>, owner: Owner) -> Seq<Owner> {
    if owners.contains(owner) {
        owners
    } else {
        owners.push(owner)
    }
}

/// The owners of ids after each of `more`, in order, has been given one.
pub open spec fn with_owners(owners: Seq<Owner>, more: Seq<Owner>) -> Seq<Owner>
    decreases more.len(),
{
    if more.len() == 0 {
        owners
    } else {
        with_owner(with_owners(owners, more.drop_last()), more.last())
    }
}

/// The id of an owner that has one.
pub open spec fn id_of(owners: Seq<Owner>, owner: Owner) -> NodeId {
    NodeId(owners.index_of(owner) as u64)
}

/// How many of the owners are elements.
pub open spec fn element_count(owners: Seq<Owner>) -> nat
    decreases owners.len(),
{
    if owners.len() == 0 {
        0
    } else {
        element_count(owners.drop_last()) + if owners.last() is Element {
            1nat
        } else {
            0
        }
    }
}

proof fn lemma_count_bound(owners: Seq<Owner>)
    ensures
        element_count(owners) <= owners.len(),
    decreases owners.len(),
{
    if owners.len() > 0 {
        lemma_count_bound(owners.drop_last());
    }
}

/// Assigns node ids to elements and to their text runs, stably across walks.
///
/// Ids only ever get added: an id is never reused, so that a stale id on the
/// consumer can never come to mean a different node. Runs draw from the same
/// counter as elements, so the two can never collide.
pub struct NodeIdMap {
    ids: HashMap<u128, u64>,
    runs: HashMap<u128, u64>,
    owners: Vec<Owner>,
    elements: usize,
}

/// The code of a run.
pub open spec fn run_code(parent: NodeId, index: usize) -> u128 {
    (parent.0 * SPAN + index) as u128
}

proof fn lemma_run_code(p: NodeId, i: usize, q: NodeId, j: usize)
    requires
        run_code(p, i) == run_code(q, j),
    ensures
        p == q,
        i == j,
{
    let (a, b) = (p.0 as int, q.0 as int);
    lemma_run_code_fits(p, i);
    lemma_run_code_fits(q, j);
    assert(a == b) by (nonlinear_arith)
        requires
            a * 0x1_0000_0000_0000_0000 + i == b * 0x1_0000_0000_0000_0000 + j,
            0 <= i < 0x1_0000_0000_0000_0000,
            0 <= j < 0x1_0000_0000_0000_0000,
    ;
}

proof fn lemma_run_code_fits(p: NodeId, i: usize)
    ensures
        p.0 * SPAN + i <= u128::MAX,
{
    let a = p.0 as int;
    assert(a * 0x1_0000_0000_0000_0000 + i <= u128::MAX) by (nonlinear_arith)
        requires
            0 <= a <= 0xffff_ffff_ffff_ffff,
            0 <= i <= 0xffff_ffff_ffff_ffff,
    ;
}

fn to_run_code(parent: NodeId, index: usize) -> (code: u128)
    ensures
        code == run_code(parent, index),
{
    proof {
        lemma_run_code_fits(parent, index);
    }
    parent.0 as u128 * SPAN + index as u128
}

impl View for NodeIdMap {
    type V = Seq<Owner>;

    closed spec fn view(&self) -> Seq<Owner> {
        self.owners@
    }
}

impl NodeIdMap {
    /// Each owner has one id, and is found by it.
    pub closed spec fn wf(&self) -> bool {
        &&& self.owners@.no_duplicates()
        &&& self.elements == element_count(self.owners@)
        &&& forall|key: ElementKey| #[trigger]
            self.ids@.contains_key(key.code()) <==> self.owners@.contains(Owner::Element(key))
        &&& forall|key: ElementKey|
            self.ids@.contains_key(#[trigger] key.code()) ==> (self.ids@[key.code()] as int)
                < self.owners@.len() && self.owners@[self.ids@[key.code()] as int]
                == Owner::Element(key)
        &&& forall|parent: NodeId, index: usize| #[trigger]
            self.runs@.contains_key(run_code(parent, index)) <==> self.owners@.contains(
                Owner::Run { parent, index },
            )
        &&& forall|parent: NodeId, index: usize|
            self.runs@.contains_key(#[trigger] run_code(parent, index)) ==> (self.runs@[run_code(
                parent,
                index,
            )] as int) < self.owners@.len() && self.owners@[self.runs@[run_code(
                parent,
                index,
            )] as int] == (Owner::Run { parent, index })
    }

    /// No owner has two ids, and there is room for every id.
    pub proof fn lemma_wf(&self)
        requires
            self.wf(),
        ensures
            self@.no_duplicates(),
            self@.len() <= usize::MAX,
    {
        let n: usize = self.owners.len();
    }

    pub fn new() -> (ids: Self)
        ensures
            ids.wf(),
            ids@ == Seq::<Owner>::empty(),
    {
        broadcast use vstd::std_specs::hash::group_hash_axioms;

        NodeIdMap { ids: HashMap::new(), runs: HashMap::new(), owners: Vec::new(), elements: 0 }
    }

    /// Returns the id for `key`, allocating a fresh one on first sight.
    pub fn id_for(&mut self, key: ElementKey) -> (id: NodeId)
        requires
            old(self).wf(),
        ensures
            final(self).wf(),
            final(self)@ == with_owner(old(self)@, Owner::Element(key)),
            final(self)@.contains(Owner::Element(key)),
            id == id_of(final(self)@, Owner::Element(key)),
    {
        broadcast use vstd::std_specs::hash::group_hash_axioms;

        let code: u128 = key.to_code();
        let ghost owner = Owner::Element(key);
        match self.ids.get(&code) {
            Some(id) => {
                proof {
                    lemma_place(self.owners@, *id as int, owner);
                }
                return NodeId(*id);
            },
            None => {},
        }
        let id: u64 = self.owners.len() as u64;
        let ghost before = self.owners@;
        self.ids.insert(code, id);
        self.owners.push(Owner::Element(key));
        proof {
            assert(self.owners@.drop_last() =~= before);
            lemma_count_bound(self.owners@);
            let n: usize = self.owners.len();
        }
        self.elements = self.elements + 1;
        proof {
            lemma_grown(before, owner);
            assert(self.owners@.drop_last() =~= before);
            assert forall|k: ElementKey| #[trigger]
                self.ids@.contains_key(k.code()) <==> self.owners@.contains(
                    Owner::Element(k),
                ) by {
                if k.code() == key.code() {
                    k.lemma_code(key);
                }
            }
            assert forall|k: ElementKey| self.ids@.contains_key(#[trigger] k.code()) implies (
            self.ids@[k.code()] as int) < self.owners@.len()
                && self.owners@[self.ids@[k.code()] as int] == Owner::Element(k) by {
                if k.code() == key.code() {
                    k.lemma_code(key);
                }
            }
            lemma_place(self.owners@, id as int, owner);
        }
        NodeId(id)
    }

    /// Returns the id previously assigned to `key`, if any, and never assigns one.
    pub fn get(&self, key: ElementKey) -> (id: Option<NodeId>)
        requires
            self.wf(),
        ensures
            id == (if self@.contains(Owner::Element(key)) {
                Some(id_of(self@, Owner::Element(key)))
            } else {
                None
            }),
    {
        broadcast use vstd::std_specs::hash::group_hash_axioms;

        match self.ids.get(&key.to_code()) {
            Some(id) => {
                proof {
                    lemma_place(self.owners@, *id as int, Owner::Element(key));
                }
                Some(NodeId(*id))
            },
            None => None,
        }
    }

    /// The id of a text element's `index`-th run, allocating one on first sight.
    pub fn run_id_for(&mut self, parent: NodeId, index: usize) -> (id: NodeId)
        requires
            old(self).wf(),
        ensures
            final(self).wf(),
            final(self)@ == with_owner(old(self)@, Owner::Run { parent, index }),
            final(self)@.contains(Owner::Run { parent, index }),
            id == id_of(final(self)@, Owner::Run { parent, index }),
    {
        broadcast use vstd::std_specs::hash::group_hash_axioms;

        let code: u128 = to_run_code(parent, index);
        let ghost owner = Owner::Run { parent, index };
        match self.runs.get(&code) {
            Some(id) => {
                proof {
                    lemma_place(self.owners@, *id as int, owner);
                }
                return NodeId(*id);
            },
            None => {},
        }
        let id: u64 = self.owners.len() as u64;
        let ghost before = self.owners@;
        self.runs.insert(code, id);
        self.owners.push(Owner::Run { parent, index });
        proof {
            lemma_grown(before, owner);
            assert(self.owners@.drop_last() =~= before);
            assert forall|p: NodeId, i: usize| #[trigger]
                self.runs@.contains_key(run_code(p, i)) <==> self.owners@.contains(
                    Owner::Run { parent: p, index: i },
                ) by {
                if run_code(p, i) == run_code(parent, index) {
                    lemma_run_code(p, i, parent, index);
                }
            }
            assert forall|p: NodeId, i: usize|
                self.runs@.contains_key(#[trigger] run_code(p, i)) implies (self.runs@[run_code(
                p,
                i,
            )] as int) < self.owners@.len() && self.owners@[self.runs@[run_code(p, i)] as int] == (
            Owner::Run { parent: p, index: i }) by {
                if run_code(p, i) == run_code(parent, index) {
                    lemma_run_code(p, i, parent, index);
                }
            }
            lemma_place(self.owners@, id as int, owner);
        }
        NodeId(id)
    }

    /// The element a node id stands for, for carrying out an action on it.
    pub fn key_for(&self, id: NodeId) -> (key: Option<ElementKey>)
        ensures
            key == (if id.0 < self@.len() {
                match self@[id.0 as int] {
                    Owner::Element(key) => Some(key),
                    Owner::Run { .. } => None,
                }
            } else {
                None
            }),
    {
        if id.0 < self.owners.len() as u64 {
            match self.owners[id.0 as usize] {
                Owner::Element(key) => Some(key),
                Owner::Run { .. } => None,
            }
        } else {
            None
        }
    }

    /// How many elements have ids.
    pub fn len(&self) -> (count: usize)
        requires
            self.wf(),
        ensures
            count == element_count(self@),
    {
        self.elements
    }

    pub fn is_empty(&self) -> (empty: bool)
        requires
            self.wf(),
        ensures
            empty == (element_count(self@) == 0),
    {
        self.elements == 0
    }
}

impl Default for NodeIdMap {
    fn default() -> (ids: Self)
        ensures
            ids.wf(),
            ids@ == Seq::<Owner>::empty(),
    {
        Self::new()
    }
}

/// An owner's id is the place it stands at.
pub proof fn lemma_place(owners: Seq<Owner>, i: int, owner: Owner)
    requires
        owners.no_duplicates(),
        0 <= i < owners.len(),
        owners[i] == owner,
    ensures
        owners.contains(owner),
        owners.index_of(owner) == i,
{
    assert(owners.contains(owner));
    let j = owners.index_of(owner);
    assert(owners[j] == owner);
}

proof fn lemma_grown(owners: Seq<Owner>, owner: Owner)
    requires
        owners.no_duplicates(),
        !owners.contains(owner),
    ensures
        owners.push(owner).no_duplicates(),
        forall|o: Owner| #[trigger]
            owners.push(owner).contains(o) <==> owners.contains(o) || o == owner,
{
    let longer = owners.push(owner);
    assert forall|o: Owner| #[trigger] longer.contains(o) <==> owners.contains(o) || o == owner by {
        if longer.contains(o) {
            let j = longer.index_of(o);
            if j < owners.len() {
                assert(owners[j] == o);
            }
        }
        if owners.contains(o) {
            let j = owners.index_of(o);
            assert(longer[j] == o);
        }
        assert(longer[owners.len() as int] == owner);
    }
    assert forall|i: int, j: int| 0 <= i < j < longer.len() implies longer[i] != longer[j] by {
        if j == owners.len() {
            assert(owners.contains(owners[i]));
        }
    }
}

/// Ids are stable and never reused: whatever is given an id later, an owner keeps
/// its own, and no other owner has it.
pub proof fn law_ids_are_stable_and_never_reused(
    owners: Seq<Owner>,
    later: Seq<Owner>,
    owner: Owner,
    other: Owner,
)
    requires
        owners.no_duplicates(),
        owners.contains(owner),
        owner != other,
        owners.len() + later.len() <= u64::MAX,
    ensures
        with_owners(owners, later).contains(owner),
        id_of(with_owners(owners, later), owner) == id_of(owners, owner),
        with_owners(owners, later).contains(other) ==> id_of(with_owners(owners, later), other)
            != id_of(owners, owner),
{
    lemma_with_owners(owners, later);
    let after = with_owners(owners, later);
    let i = owners.index_of(owner);
    assert(owners[i] == owner);
    assert(after[i] == after.take(owners.len() as int)[i]);
    lemma_place(after, i, owner);
    lemma_place(owners, i, owner);
    if after.contains(other) {
        let j = after.index_of(other);
        assert(after[j] == other);
    }
}

/// Owners are only ever added, each once.
pub proof fn lemma_with_owners(owners: Seq<Owner>, more: Seq<Owner>)
    requires
        owners.no_duplicates(),
    ensures
        with_owners(owners, more).no_duplicates(),
        owners.len() <= with_owners(owners, more).len() <= owners.len() + more.len(),
        with_owners(owners, more).take(owners.len() as int) == owners,
        forall|o: Owner| #[trigger]
            with_owners(owners, more).contains(o) <==> owners.contains(o) || more.contains(o),
    decreases more.len(),
{
    let after = with_owners(owners, more);
    if more.len() == 0 {
        assert(after.take(owners.len() as int) =~= owners);
    } else {
        let init = more.drop_last();
        let last = more.last();
        lemma_with_owners(owners, init);
        let before = with_owners(owners, init);
        if !before.contains(last) {
            lemma_grown(before, last);
            assert(after.take(owners.len() as int) =~= before.take(owners.len() as int));
        }
        assert forall|o: Owner| #[trigger] after.contains(o) <==> owners.contains(o)
            || more.contains(o) by {
            if more.contains(o) {
                let j = more.index_of(o);
                if j < init.len() {
                    assert(init[j] == o);
                } else {
                    assert(o == last);
                }
            }
            if init.contains(o) {
                let j = init.index_of(o);
                assert(more[j] == o);
            }
            assert(more[more.len() - 1] == last);
        }
    }
}

} // verus!
