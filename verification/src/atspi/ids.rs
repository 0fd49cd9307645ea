//! Node ids for AT-SPI object paths, and sets of such paths.

use crate::strings::lemma_views_push;
use crate::strings::views;
use crate::tree::NodeId;
use vstd::hash_map::StringHashMap;
use vstd::prelude::*;

verus! {

/// Assigns stable, sequential node ids to object paths within one window. The
/// same path always maps to the same id for the life of the map.
pub struct NodeIdMap {
    map: StringHashMap<NodeId>,
    next: u64,
}

/// A table of ids: every id is below the number of entries, so the ids are the
/// numbers up to it, and no two paths share one.
pub open spec fn id_table(ids: Map<Seq<char>, NodeId>) -> bool {
    &&& ids.dom().finite()
    &&& forall|p: Seq<char>| #[trigger] ids.contains_key(p) ==> ids[p].0 < ids.dom().len()
    &&& forall|p: Seq<char>, q: Seq<char>|
        #![trigger ids[p], ids[q]]
        ids.contains_key(p) && ids.contains_key(q) && ids[p] == ids[q] ==> p == q
}

/// The table after `path` has been given an id, if it had none: the next
/// number.
pub open spec fn with_path(ids: Map<Seq<char>, NodeId>, path: Seq<char>) -> Map<
    Seq<char>,
    NodeId,
> {
    if ids.contains_key(path) {
        ids
    } else {
        ids.insert(path, NodeId(ids.dom().len() as u64))
    }
}

/// The table after each of `paths`, in order, has been given an id.
pub open spec fn with_paths(ids: Map<Seq<char>, NodeId>, paths: Seq<Seq<char>>) -> Map<
    Seq<char>,
    NodeId,
>
    decreases paths.len(),
{
    if paths.len() == 0 {
        ids
    } else {
        with_path(with_paths(ids, paths.drop_last()), paths.last())
    }
}

/// Whether `later` has every entry of `earlier`, unchanged.
pub open spec fn extends(later: Map<Seq<char>, NodeId>, earlier: Map<Seq<char>, NodeId>) -> bool {
    forall|p: Seq<char>| #[trigger]
        earlier.contains_key(p) ==> later.contains_key(p) && later[p] == earlier[p]
}

/// Whether each of `paths` has an id.
pub open spec fn all_known(ids: Map<Seq<char>, NodeId>, paths: Seq<Seq<char>>) -> bool {
    forall|i: int| 0 <= i < paths.len() ==> ids.contains_key(#[trigger] paths[i])
}

/// The ids of paths that all have one.
pub open spec fn ids_at(ids: Map<Seq<char>, NodeId>, paths: Seq<Seq<char>>) -> Seq<NodeId> {
    paths.map_values(|p: Seq<char>| ids[p])
}

/// Giving a path an id changes no other path's, and the table stays one.
pub proof fn lemma_with_path(ids: Map<Seq<char>, NodeId>, path: Seq<char>)
    requires
        id_table(ids),
        ids.dom().len() < u64::MAX,
    ensures
        id_table(with_path(ids, path)),
        extends(with_path(ids, path), ids),
        with_path(ids, path).contains_key(path),
        with_path(ids, path).dom() == ids.dom().insert(path),
{
    let after = with_path(ids, path);
    assert(after.dom() =~= ids.dom().insert(path));
}

pub proof fn lemma_extends_transitive(
    a: Map<Seq<char>, NodeId>,
    b: Map<Seq<char>, NodeId>,
    c: Map<Seq<char>, NodeId>,
)
    requires
        extends(b, a),
        extends(c, b),
    ensures
        extends(c, a),
{
    assert forall|p: Seq<char>| #[trigger] a.contains_key(p) implies c.contains_key(p) && c[p]
        == a[p] by {
        assert(b.contains_key(p));
    }
}

/// Ids already assigned stay what they are.
pub proof fn lemma_with_paths_extends(ids: Map<Seq<char>, NodeId>, paths: Seq<Seq<char>>)
    ensures
        extends(with_paths(ids, paths), ids),
        with_paths(ids, paths).dom() == ids.dom().union(paths.to_set()),
    decreases paths.len(),
{
    if paths.len() == 0 {
        assert(ids.dom().union(paths.to_set()) =~= ids.dom());
    } else {
        let init = paths.drop_last();
        lemma_with_paths_extends(ids, init);
        let before = with_paths(ids, init);
        let after = with_paths(ids, paths);
        assert(after.dom() =~= before.dom().insert(paths.last()));
        assert forall|p: Seq<char>| #[trigger]
            after.dom().contains(p) <==> ids.dom().union(paths.to_set()).contains(p) by {
            if init.contains(p) {
                let i = init.index_of(p);
                assert(paths[i] == p);
            }
            if paths.contains(p) && p != paths.last() {
                let i = paths.index_of(p);
                assert(init[i] == p);
            }
            assert(paths[paths.len() - 1] == paths.last());
        }
        assert(after.dom() =~= ids.dom().union(paths.to_set()));
    }
}

pub proof fn lemma_with_paths_push(ids: Map<Seq<char>, NodeId>, paths: Seq<Seq<char>>, p: Seq<char>)
    ensures
        with_paths(ids, paths.push(p)) == with_path(with_paths(ids, paths), p),
{
    assert(paths.push(p).drop_last() =~= paths);
}

/// Giving ids to two lists one after the other is giving ids to both joined.
pub proof fn lemma_with_paths_concat(
    ids: Map<Seq<char>, NodeId>,
    a: Seq<Seq<char>>,
    b: Seq<Seq<char>>,
)
    ensures
        with_paths(ids, a + b) == with_paths(with_paths(ids, a), b),
    decreases b.len(),
{
    if b.len() == 0 {
        assert(a + b =~= a);
    } else {
        lemma_with_paths_concat(ids, a, b.drop_last());
        assert((a + b).drop_last() =~= a + b.drop_last());
    }
}

/// Giving ids to paths that all have one changes nothing.
pub proof fn lemma_with_paths_known(ids: Map<Seq<char>, NodeId>, paths: Seq<Seq<char>>)
    requires
        all_known(ids, paths),
    ensures
        with_paths(ids, paths) == ids,
    decreases paths.len(),
{
    if paths.len() > 0 {
        assert forall|i: int| 0 <= i < paths.drop_last().len() implies ids.contains_key(
            #[trigger] paths.drop_last()[i],
        ) by {
            assert(paths.drop_last()[i] == paths[i]);
        }
        lemma_with_paths_known(ids, paths.drop_last());
        assert(ids.contains_key(paths[paths.len() - 1]));
    }
}

impl View for NodeIdMap {
    type V = Map<Seq<char>, NodeId>;

    closed spec fn view(&self) -> Map<Seq<char>, NodeId> {
        self.map@
    }
}

impl NodeIdMap {
    /// The table is one, and the next id is its size.
    pub closed spec fn wf(&self) -> bool {
        id_table(self.map@) && self.next == self.map@.dom().len()
    }

    pub proof fn lemma_wf(&self)
        requires
            self.wf(),
        ensures
            id_table(self@),
            self@.dom().len() <= u64::MAX,
    {
    }

    pub fn new() -> (ids: Self)
        ensures
            ids.wf(),
            ids@ == Map::<Seq<char>, NodeId>::empty(),
    {
        NodeIdMap { map: StringHashMap::new(), next: 0 }
    }

    /// Returns the id for `path`, allocating a fresh one on first sight.
    pub fn id_for(&mut self, path: &str) -> (id: NodeId)
        requires
            old(self).wf(),
        ensures
            final(self).wf(),
            final(self)@ == with_path(old(self)@, path@),
            final(self)@.contains_key(path@),
            id == final(self)@[path@],
    {
        broadcast use vstd::hash_map::group_hash_map_axioms;

        match self.map.get(path) {
            Some(id) => {
                return *id;
            },
            None => {},
        }
        let id: NodeId = NodeId(self.next);
        self.map.insert(path.to_owned(), id);
        // The table holds no more entries than a map can, so the number of the
        // next one fits.
        assert(self.map@.dom().len() == old(self).map@.dom().len() + 1);
        assert(self.map.spec_len() == self.map@.len());
        proof {
            lemma_with_path(old(self)@, path@);
        }
        self.next = self.next + 1;
        id
    }

    /// Returns the id previously assigned to `path`, if any.
    pub fn get(&self, path: &str) -> (id: Option<NodeId>)
        ensures
            id == (if self@.contains_key(path@) {
                Some(self@[path@])
            } else {
                None
            }),
    {
        match self.map.get(path) {
            Some(id) => Some(*id),
            None => None,
        }
    }
}

impl Default for NodeIdMap {
    fn default() -> (ids: Self)
        ensures
            ids.wf(),
            ids@ == Map::<Seq<char>, NodeId>::empty(),
    {
        Self::new()
    }
}

/// A path keeps its id: whatever is allocated later, the same path answers the
/// same id, and a different path answers a different one.
pub proof fn law_ids_are_stable_and_distinct(
    ids: Map<Seq<char>, NodeId>,
    path: Seq<char>,
    other: Seq<char>,
    later: Seq<Seq<char>>,
)
    requires
        id_table(ids),
        ids.contains_key(path),
        path != other,
        ids.dom().len() + later.len() < u64::MAX,
    ensures
        with_paths(ids, later)[path] == ids[path],
        with_paths(ids, later).contains_key(other) ==> with_paths(ids, later)[other] != ids[path],
{
    lemma_with_paths_extends(ids, later);
    lemma_with_paths_table(ids, later);
}

/// The table stays one as paths are given ids.
pub proof fn lemma_with_paths_table(ids: Map<Seq<char>, NodeId>, paths: Seq<Seq<char>>)
    requires
        id_table(ids),
        ids.dom().len() + paths.len() < u64::MAX,
    ensures
        id_table(with_paths(ids, paths)),
        with_paths(ids, paths).dom().len() <= ids.dom().len() + paths.len(),
    decreases paths.len(),
{
    if paths.len() > 0 {
        lemma_with_paths_table(ids, paths.drop_last());
        lemma_with_path(with_paths(ids, paths.drop_last()), paths.last());
    }
}

/// A set of object paths.
pub struct PathSet {
    paths: StringHashMap<()>,
    order: Vec<String>,
}

impl View for PathSet {
    type V = Set<Seq<char>>;

    closed spec fn view(&self) -> Set<Seq<char>> {
        self.paths@.dom()
    }
}

impl PathSet {
    #[verifier::type_invariant]
    spec fn consistent(&self) -> bool {
        self.paths@.dom() == views(self.order@).to_set()
    }

    pub fn new() -> (set: Self)
        ensures
            set@ == Set::<Seq<char>>::empty(),
    {
        let paths: StringHashMap<()> = StringHashMap::new();
        let order: Vec<String> = Vec::new();
        assert(paths@.dom() =~= Set::<Seq<char>>::empty());
        assert(views(order@).to_set() =~= Set::<Seq<char>>::empty());
        PathSet { paths, order }
    }

    pub fn insert(&mut self, path: &str)
        ensures
            final(self)@ == old(self)@.insert(path@),
    {
        if self.paths.contains_key(path) {
            assert(self@ =~= old(self)@.insert(path@));
            return;
        }
        let mut taken = PathSet::new();
        std::mem::swap(self, &mut taken);
        proof {
            use_type_invariant(&taken);
        }
        let PathSet { mut paths, mut order } = taken;
        let ghost (known, listed) = (paths@, order@);
        paths.insert(path.to_owned(), ());
        let entry: String = path.to_owned();
        proof {
            lemma_views_push(order@, entry);
        }
        order.push(entry);
        proof {
            let (shorter, longer) = (views(listed), views(order@));
            assert(longer == shorter.push(path@));
            assert forall|p: Seq<char>| longer.contains(p) <==> shorter.contains(p) || p
                == path@ by {
                if longer.contains(p) {
                    let j = longer.index_of(p);
                    if j < shorter.len() {
                        assert(shorter[j] == p);
                    }
                }
                if shorter.contains(p) {
                    let j = shorter.index_of(p);
                    assert(longer[j] == p);
                }
                assert(longer[shorter.len() as int] == path@);
            }
            assert(paths@.dom() =~= known.dom().insert(path@));
            assert(longer.to_set() =~= shorter.to_set().insert(path@));
        }
        *self = PathSet { paths, order };
    }

    pub fn contains(&self, path: &str) -> (found: bool)
        ensures
            found == self@.contains(path@),
    {
        self.paths.contains_key(path)
    }

    pub fn copy(&self) -> (set: Self)
        ensures
            set@ == self@,
    {
        proof {
            use_type_invariant(self);
        }
        PathSet::of(self.order.as_slice())
    }

    /// The set of all of `paths`.
    pub fn of(paths: &[String]) -> (set: Self)
        ensures
            set@ == views(paths@).to_set(),
    {
        let mut set = PathSet::new();
        set.insert_all(paths);
        assert(set@ =~= views(paths@).to_set());
        set
    }

    /// Adds all of `paths`.
    pub fn insert_all(&mut self, paths: &[String])
        ensures
            final(self)@ == old(self)@.union(views(paths@).to_set()),
    {
        for i in 0..paths.len()
            invariant
                forall|p: Seq<char>|
                    self@.contains(p) <==> old(self)@.contains(p) || exists|j: int|
                        0 <= j < i && (#[trigger] paths@[j])@ == p,
        {
            self.insert(paths[i].as_str());
        }
        assert forall|p: Seq<char>| views(paths@).to_set().contains(p) <==> exists|j: int|
            0 <= j < paths@.len() && (#[trigger] paths@[j])@ == p by {
            if views(paths@).contains(p) {
                let j = views(paths@).index_of(p);
                assert(paths@[j]@ == p);
            }
            if exists|j: int| 0 <= j < paths@.len() && (#[trigger] paths@[j])@ == p {
                let j = choose|j: int| 0 <= j < paths@.len() && (#[trigger] paths@[j])@ == p;
                assert(views(paths@)[j] == p);
            }
        }
        assert(self@ =~= old(self)@.union(views(paths@).to_set()));
    }
}

} // verus!
