//! The decisions of reading the accessibility bus: which frames are windows, what
//! to read of an object, how a subtree is walked, and how a chain of parents is
//! climbed. The calls themselves are the caller's; objects are named here by
//! tokens the caller picks.

use crate::atspi::ids::PathSet;
use crate::atspi::laws::distinct_paths;
use crate::atspi::node::carries_attributes;
use crate::atspi::node::carries_relations;
use crate::atspi::node::carries_value;
use crate::atspi::node::distilled;
use crate::atspi::node::editable_text;
use crate::atspi::node::has_caret;
use crate::atspi::node::has_text_caret;
use crate::atspi::node::nearest_role;
use crate::atspi::node::node_states;
use crate::atspi::node::reads_text_runs;
use crate::atspi::node::role_reads_attributes;
use crate::atspi::node::role_reads_relations;
use crate::atspi::node::role_reads_value;
use crate::atspi::node::static_text;
use crate::atspi::node::text_runs_read;
use crate::atspi::node::CellState;
use crate::atspi::node::CharExtent;
use crate::atspi::node::MirrorNode;
use crate::atspi::node::NodeAttributes;
use crate::atspi::node::Relation;
use crate::atspi::node::TableState;
use crate::atspi::node::TextState;
use crate::atspi::node::ValueState;
use crate::atspi::text::capped;
use crate::atspi::text::clamp_text;
use crate::atspi::text::law_a_long_text_is_cut_at_the_end;
use crate::atspi::text::MAX_GEOMETRY_CHARS;
use crate::atspi::text::MAX_TEXT_CHARS;
use crate::atspi::vocabulary::Interface;
use crate::atspi::vocabulary::InterfaceSet;
use crate::atspi::vocabulary::Role;
use crate::atspi::vocabulary::State;
use crate::atspi::vocabulary::StateSet;
use crate::atspi::window::paths_of;
use crate::strings::views;
use crate::tree;
use crate::tree::text_view;
use vstd::prelude::*;

verus! {

/// Caps a single window's walk so that a pathological tree cannot stall a source.
pub const MAX_NODES_PER_WINDOW: usize = 5000;

/// Bounds the climb from an unwalked descendant to a known ancestor.
pub const MAX_SPLICE_HOPS: usize = 16;

// ---------------------------------------------------------------- discovery

/// Whether a child of an application is one of its visible toplevel windows.
pub open spec fn visible_toplevel(role: Role, states: Set<State>) -> bool {
    (role == Role::Frame || role == Role::Window || role == Role::Dialog) && states.contains(
        State::Showing,
    ) && states.contains(State::Visible)
}

/// Whether a child of an application is one of its visible toplevel windows, and
/// if so, whether it is the active one. A role or a set of states that could not
/// be read counts as none.
pub fn discovered_toplevel(role: Option<Role>, states: Option<&StateSet>) -> (active: Option<bool>)
    ensures
        active == (match (role, states) {
            (Some(r), Some(s)) if visible_toplevel(r, s@) => Some(s@.contains(State::Active)),
            _ => None,
        }),
{
    match (role, states) {
        (Some(r), Some(s)) => {
            let toplevel: bool = matches!(r, Role::Frame | Role::Window | Role::Dialog);
            if toplevel && s.contains(State::Showing) && s.contains(State::Visible) {
                Some(s.contains(State::Active))
            } else {
                None
            }
        },
        _ => None,
    }
}

/// A property that was read, if it holds anything.
pub fn non_empty(value: Option<String>) -> (kept: Option<String>)
    ensures
        text_view(kept) == (match value {
            Some(text) if text@.len() > 0 => Some(text@),
            _ => None,
        }),
{
    match value {
        Some(text) => if text.as_str().unicode_len() > 0 {
            Some(text)
        } else {
            None
        },
        None => None,
    }
}

// ---------------------------------------------------------------- objects

/// Which optional parts of an object are worth a bus call.
#[derive(Debug, Clone, Copy, PartialEq, Eq, Structural)]
pub struct ReadPlan {
    pub text: bool,
    pub caret: bool,
    pub extents: bool,
    pub value: bool,
    pub attributes: bool,
    pub relations: bool,
    pub table: bool,
    pub cell: bool,
}

/// What to read of an object of a role with these interfaces. An interface that
/// is not advertised is never read blind.
pub open spec fn worth_reading(
    role: Role,
    interfaces: Set<Interface>,
    has_children: bool,
    with_text: bool,
) -> ReadPlan {
    let text = with_text && text_runs_read(role, has_children) && interfaces.contains(
        Interface::Text,
    );
    ReadPlan {
        text,
        caret: text && has_caret(role),
        extents: interfaces.contains(Interface::Component),
        value: carries_value(role) && interfaces.contains(Interface::Value),
        attributes: carries_attributes(role),
        relations: carries_relations(role),
        table: interfaces.contains(Interface::Table),
        cell: interfaces.contains(Interface::TableCell),
    }
}

/// Plans what to read of an object; see [`worth_reading`]. A role that could not
/// be read is the invalid one, and interfaces that could not be read are none.
pub fn plan_reads(
    role: Option<Role>,
    interfaces: Option<&InterfaceSet>,
    has_children: bool,
    with_text: bool,
) -> (plan: ReadPlan)
    ensures
        plan == worth_reading(
            role_or_invalid(role),
            match interfaces {
                Some(set) => set@,
                None => Set::empty(),
            },
            has_children,
            with_text,
        ),
{
    let role: Role = match role {
        Some(role) => role,
        None => Role::Invalid,
    };
    let has = |interface: Interface| -> (found: bool)
        ensures
            found == (match interfaces {
                Some(set) => set@,
                None => Set::<Interface>::empty(),
            }).contains(interface),
        {
            match interfaces {
                Some(set) => set.contains(interface),
                None => false,
            }
        };
    let text: bool = with_text && reads_text_runs(role, has_children) && has(Interface::Text);
    ReadPlan {
        text,
        caret: text && has_text_caret(role),
        extents: has(Interface::Component),
        value: role_reads_value(role) && has(Interface::Value),
        attributes: role_reads_attributes(role),
        relations: role_reads_relations(role),
        table: has(Interface::Table),
        cell: has(Interface::TableCell),
    }
}

/// A role that could not be read is the invalid one.
pub open spec fn role_or_invalid(role: Option<Role>) -> Role {
    match role {
        Some(role) => role,
        None => Role::Invalid,
    }
}

/// What was read of one object; `None` is what could not be read.
pub struct NodeReads {
    pub path: String,
    pub role: Option<Role>,
    pub name: Option<String>,
    pub description: Option<String>,
    pub interfaces: Option<InterfaceSet>,
    pub states: Option<StateSet>,
    /// The paths of the children; `None` for a null reference among them.
    pub children: Vec<Option<String>>,
    pub text: Option<TextState>,
    pub bounds: Option<CharExtent>,
    pub value: Option<ValueState>,
    pub table: Option<TableState>,
    pub cell: Option<CellState>,
    pub attributes: Option<NodeAttributes>,
    pub relations: Vec<Relation>,
}

/// The paths that are there, in order.
pub open spec fn present(paths: Seq<Option<String>>) -> Seq<Seq<char>>
    decreases paths.len(),
{
    if paths.len() == 0 {
        Seq::empty()
    } else {
        match paths.last() {
            Some(path) => present(paths.drop_last()).push(path@),
            None => present(paths.drop_last()),
        }
    }
}

/// The text that was read, or none at all.
pub open spec fn text_or_empty(text: Option<String>) -> Seq<char> {
    match text {
        Some(text) => text@,
        None => Seq::empty(),
    }
}

fn text_or_default(text: Option<String>) -> (read: String)
    ensures
        read@ == text_or_empty(text),
{
    match text {
        Some(text) => text,
        None => String::new(),
    }
}

/// The paths that are there; see [`present`].
pub fn present_paths(paths: &[Option<String>]) -> (list: Vec<String>)
    ensures
        views(list@) == present(paths@),
{
    let mut list: Vec<String> = Vec::new();
    assert(views(list@) =~= Seq::<Seq<char>>::empty());
    for i in 0..paths.len()
        invariant
            views(list@) == present(paths@.take(i as int)),
    {
        assert(paths@.take(i + 1).drop_last() =~= paths@.take(i as int));
        match &paths[i] {
            Some(path) => {
                let copy: String = path.clone();
                proof {
                    crate::strings::lemma_views_push(list@, copy);
                }
                list.push(copy);
            },
            None => {},
        }
    }
    assert(paths@.take(paths@.len() as int) =~= paths@);
    list
}

/// The object that was read. What could not be read is as if it were absent.
pub fn mirror_node(reads: NodeReads) -> (node: MirrorNode)
    ensures
        node.path == reads.path,
        node.role == role_or_invalid(reads.role),
        node.name@ == text_or_empty(reads.name),
        node.description@ == text_or_empty(reads.description),
        node.interfaces@ == (match reads.interfaces {
            Some(set) => set@,
            None => Set::empty(),
        }),
        node.states == distilled(
            match reads.states {
                Some(set) => set@,
                None => Set::empty(),
            },
        ),
        views(node.children@) == present(reads.children@),
        node.text == reads.text,
        node.bounds == reads.bounds,
        node.value == reads.value,
        node.table == reads.table,
        node.cell == reads.cell,
        match reads.attributes {
            Some(attributes) => node.attributes == attributes,
            None => node.attributes.placeholder is None && node.attributes.level is None
                && node.attributes.position_in_set is None && node.attributes.size_of_set is None,
        },
        node.relations == reads.relations,
{
    let role: Role = match reads.role {
        Some(role) => role,
        None => Role::Invalid,
    };
    let interfaces: InterfaceSet = match reads.interfaces {
        Some(set) => set,
        None => InterfaceSet::empty(),
    };
    let states: StateSet = match reads.states {
        Some(set) => set,
        None => StateSet::empty(),
    };
    let attributes: NodeAttributes = match reads.attributes {
        Some(attributes) => attributes,
        None => NodeAttributes {
            placeholder: None,
            level: None,
            position_in_set: None,
            size_of_set: None,
        },
    };
    MirrorNode {
        path: reads.path,
        role,
        name: text_or_default(reads.name),
        description: text_or_default(reads.description),
        interfaces,
        states: node_states(&states),
        children: present_paths(reads.children.as_slice()),
        text: reads.text,
        bounds: reads.bounds,
        value: reads.value,
        table: reads.table,
        cell: reads.cell,
        attributes,
        relations: reads.relations,
    }
}

// ---------------------------------------------------------------- texts

/// How many characters to ask for of a text that claims to have `count`.
pub fn characters_wanted(count: i32) -> (wanted: i32)
    ensures
        wanted == (if count < 0 {
            0int
        } else if count > MAX_TEXT_CHARS {
            MAX_TEXT_CHARS as int
        } else {
            count as int
        }),
{
    if count < 0 {
        0
    } else if count > 65_536 {
        65_536
    } else {
        count
    }
}

/// The lower of an offset and a length.
pub open spec fn within(offset: int, len: nat) -> usize {
    if offset < len {
        offset as usize
    } else {
        len as usize
    }
}

/// A caret offset that was read, brought into the text; a negative one is none.
pub open spec fn caret_in(offset: Option<i32>, len: nat) -> Option<usize> {
    match offset {
        Some(offset) if offset >= 0 => Some(within(offset as int, len)),
        _ => None,
    }
}

/// A selection that was read, brought into the text, with its ends in order; one
/// that is negative or holds nothing is none.
pub open spec fn selection_in(range: Option<(i32, i32)>, len: nat) -> Option<(usize, usize)> {
    match range {
        Some((start, end)) if start >= 0 && end >= 0 => {
            let (a, b) = (within(start as int, len), within(end as int, len));
            if a < b {
                Some((a, b))
            } else if b < a {
                Some((b, a))
            } else {
                None
            }
        },
        _ => None,
    }
}

fn bring_in(offset: i32, len: usize) -> (inside: usize)
    requires
        offset >= 0,
    ensures
        inside == within(offset as int, len as nat),
{
    let offset: u32 = offset as u32;
    if (offset as u64) < (len as u64) {
        offset as usize
    } else {
        len
    }
}

/// See [`caret_in`].
fn caret_within(offset: Option<i32>, len: usize) -> (caret: Option<usize>)
    ensures
        caret == caret_in(offset, len as nat),
{
    match offset {
        Some(offset) => if offset >= 0 {
            Some(bring_in(offset, len))
        } else {
            None
        },
        None => None,
    }
}

/// See [`selection_in`].
fn selection_within(range: Option<(i32, i32)>, len: usize) -> (selection: Option<(usize, usize)>)
    ensures
        selection == selection_in(range, len as nat),
{
    match range {
        Some((start, end)) => {
            if start < 0 || end < 0 {
                return None;
            }
            let (a, b): (usize, usize) = (bring_in(start, len), bring_in(end, len));
            if a < b {
                Some((a, b))
            } else if b < a {
                Some((b, a))
            } else {
                None
            }
        },
        None => None,
    }
}

/// How many characters of a text are kept, and whether their extents are worth a
/// bus call each.
pub fn text_extent_plan(raw: &str, with_geometry: bool) -> (plan: (usize, bool))
    ensures
        plan.0 == capped(raw@).len(),
        plan.1 == (with_geometry && capped(raw@).len() <= MAX_GEOMETRY_CHARS),
{
    let len: usize = clamp_text(raw).unicode_len();
    (len, with_geometry && len <= MAX_GEOMETRY_CHARS)
}

/// The state of a text, from its characters and, where they were read, its caret,
/// its first selection and its extents.
pub fn text_state(
    raw: &str,
    caret: Option<i32>,
    range: Option<(i32, i32)>,
    extents: Option<Vec<CharExtent>>,
) -> (state: TextState)
    ensures
        state.text@ == capped(raw@),
        state.caret == caret_in(caret, capped(raw@).len()),
        state.selection == selection_in(range, capped(raw@).len()),
        state.extents == extents,
{
    let text: &str = clamp_text(raw);
    let len: usize = text.unicode_len();
    TextState {
        text: text.to_owned(),
        caret: caret_within(caret, len),
        selection: selection_within(range, len),
        extents,
    }
}

/// A caret lies in its text, and a selection lies in it with something in it.
pub proof fn law_caret_and_selection_lie_in_the_text(
    offset: Option<i32>,
    range: Option<(i32, i32)>,
    len: nat,
)
    requires
        len <= usize::MAX,
    ensures
        caret_in(offset, len) matches Some(caret) ==> caret <= len,
        selection_in(range, len) matches Some((start, end)) ==> start < end <= len,
{
}

/// How a selection request is carried out: a collapsed one moves the caret, a
/// real one sets the first selection, with its ends in order.
#[derive(Debug, Clone, Copy, PartialEq, Eq, Structural)]
pub enum SelectionCall {
    Caret(i32),
    Range(i32, i32),
}

/// See [`SelectionCall`].
pub fn selection_call(anchor: usize, focus: usize) -> (call: SelectionCall)
    ensures
        call == (if anchor == focus {
            SelectionCall::Caret(focus as i32)
        } else if anchor < focus {
            SelectionCall::Range(anchor as i32, focus as i32)
        } else {
            SelectionCall::Range(focus as i32, anchor as i32)
        }),
{
    if anchor == focus {
        SelectionCall::Caret(focus as i32)
    } else if anchor < focus {
        SelectionCall::Range(anchor as i32, focus as i32)
    } else {
        SelectionCall::Range(focus as i32, anchor as i32)
    }
}

// ---------------------------------------------------------------- selected children

/// The selected children of a container.
#[derive(Debug, Clone, PartialEq, Eq)]
pub enum SelectedChildren {
    /// The paths of the selected children.
    Paths(Vec<String>),
    /// More are selected than the caller's cap allows.
    TooMany,
    /// The container's selection cannot be read.
    Unavailable,
}

/// How many selected children to read.
#[derive(Debug, Clone, Copy, PartialEq, Eq, Structural)]
pub enum SelectedRequest {
    Read(i32),
    TooMany,
}

/// How many selected children to read of a container that claims to have
/// `count`, of which at most `cap` are allowed.
pub fn selected_request(count: i32, cap: usize) -> (request: SelectedRequest)
    ensures
        request == (if count <= 0 {
            SelectedRequest::Read(0)
        } else if count > cap {
            SelectedRequest::TooMany
        } else {
            SelectedRequest::Read(count)
        }),
{
    if count <= 0 {
        SelectedRequest::Read(0)
    } else if (count as u64) > (cap as u64) {
        SelectedRequest::TooMany
    } else {
        SelectedRequest::Read(count)
    }
}

/// The selected children that were read; a null reference among them is skipped.
/// `None` if one could not be read.
pub fn selected_children(read: Option<Vec<Option<String>>>) -> (children: SelectedChildren)
    ensures
        match read {
            Some(paths) => children matches SelectedChildren::Paths(list) && views(list@)
                == present(paths@),
            None => children == SelectedChildren::Unavailable,
        },
{
    match read {
        Some(paths) => SelectedChildren::Paths(present_paths(paths.as_slice())),
        None => SelectedChildren::Unavailable,
    }
}

// ---------------------------------------------------------------- walks

/// A breadth-first walk of a window's subtree.
pub struct WindowWalk {
    /// Objects still to be read, by path and token; those before `head` are done.
    queue: Vec<(String, u64)>,
    head: usize,
    nodes: Vec<MirrorNode>,
    tokens: Vec<u64>,
    seen: PathSet,
}

/// The state of a walk: what is still to be read, what has been read, and by
/// which token each node is named.
#[verifier::ext_equal]
pub struct WalkView {
    pub queue: Seq<(Seq<char>, u64)>,
    pub nodes: Seq<MirrorNode>,
    pub tokens: Seq<u64>,
}

/// The contents of a list of references.
pub open spec fn reference_views(refs: Seq<(String, u64)>) -> Seq<(Seq<char>, u64)> {
    refs.map_values(|r: (String, u64)| (r.0@, r.1))
}

/// Where in a queue the next object to read is: the first whose path has not been
/// read yet.
pub open spec fn next_unread(queue: Seq<(Seq<char>, u64)>, seen: Set<Seq<char>>) -> Option<int>
    decreases queue.len(),
{
    if queue.len() == 0 {
        None
    } else if !seen.contains(queue[0].0) {
        Some(0)
    } else {
        match next_unread(queue.drop_first(), seen) {
            Some(i) => Some(i + 1),
            None => None,
        }
    }
}

impl View for WindowWalk {
    type V = WalkView;

    closed spec fn view(&self) -> WalkView {
        WalkView {
            queue: reference_views(self.queue@.skip(self.head as int)),
            nodes: self.nodes@,
            tokens: self.tokens@,
        }
    }
}

impl WindowWalk {
    /// No object has been read twice, no more than the cap have been read, and
    /// each has its token.
    pub closed spec fn wf(&self) -> bool {
        &&& self.head <= self.queue@.len()
        &&& self.seen@ == paths_of(self.nodes@).to_set()
        &&& distinct_paths(self.nodes@)
        &&& self.nodes@.len() <= MAX_NODES_PER_WINDOW
        &&& self.tokens@.len() == self.nodes@.len()
    }

    /// A walk reads no object twice, and no more than the cap.
    pub proof fn law_walk_reads_each_object_once(&self)
        requires
            self.wf(),
        ensures
            distinct_paths(self@.nodes),
            self@.nodes.len() <= MAX_NODES_PER_WINDOW,
            self@.nodes.len() <= 5000,
            self@.tokens.len() == self@.nodes.len(),
    {
    }

    /// A walk from the window's root.
    pub fn new(root_path: String, root: u64) -> (walk: Self)
        ensures
            walk.wf(),
            walk@ == (WalkView {
                queue: seq![(root_path@, root)],
                nodes: Seq::empty(),
                tokens: Seq::empty(),
            }),
    {
        let mut queue: Vec<(String, u64)> = Vec::new();
        queue.push((root_path, root));
        let walk = WindowWalk {
            queue,
            head: 0,
            nodes: Vec::new(),
            tokens: Vec::new(),
            seen: PathSet::new(),
        };
        proof {
            assert(walk.seen@ =~= paths_of(walk.nodes@).to_set());
            assert(walk@.queue =~= seq![(root_path@, root)]);
        }
        walk
    }

    /// The next object to read, taken off the queue with all before it: the first
    /// whose path has not been read. `None` when none is left or the cap is
    /// reached.
    pub fn next(&mut self) -> (next: Option<(String, u64)>)
        requires
            old(self).wf(),
        ensures
            final(self).wf(),
            final(self)@.nodes == old(self)@.nodes,
            final(self)@.tokens == old(self)@.tokens,
            ({
                let unread = next_unread(
                    old(self)@.queue,
                    paths_of(old(self)@.nodes).to_set(),
                );
                let more = unread is Some && old(self)@.nodes.len() < MAX_NODES_PER_WINDOW;
                &&& next is Some <==> more
                &&& next matches Some((path, token)) ==> {
                    &&& (path@, token) == old(self)@.queue[unread->0]
                    &&& final(self)@.queue == old(self)@.queue.skip(unread->0 + 1)
                    &&& !paths_of(old(self)@.nodes).contains(path@)
                }
            }),
    {
        if self.nodes.len() >= MAX_NODES_PER_WINDOW {
            return None;
        }
        let ghost first = self@.queue;
        let ghost seen = self.seen@;
        let ghost start = self.head as int;
        let ghost (nodes, tokens) = (self.nodes@, self.tokens@);
        assert(first.skip(0) =~= first);
        while self.head < self.queue.len()
            invariant
                0 <= start <= self.head <= self.queue@.len(),
                self.queue@ == old(self).queue@,
                nodes == old(self)@.nodes,
                tokens == old(self)@.tokens,
                first == old(self)@.queue,
                self.nodes@ == nodes,
                self.tokens@ == tokens,
                self.seen@ == seen,
                seen == paths_of(nodes).to_set(),
                distinct_paths(nodes),
                nodes.len() < MAX_NODES_PER_WINDOW,
                tokens.len() == nodes.len(),
                first == reference_views(self.queue@.skip(start)),
                next_unread(first, seen) == (match next_unread(
                    first.skip(self.head - start),
                    seen,
                ) {
                    Some(i) => Some(i + (self.head - start)),
                    None => None,
                }),
            decreases self.queue.len() - self.head,
        {
            let ghost k = self.head - start;
            let ghost rest = first.skip(k);
            assert(rest[0] == (self.queue@[self.head as int].0@, self.queue@[self.head as int].1));
            assert(rest.drop_first() =~= first.skip(k + 1));
            let path: String = self.queue[self.head].0.clone();
            let token: u64 = self.queue[self.head].1;
            self.head = self.head + 1;
            if !self.seen.contains(path.as_str()) {
                proof {
                    assert(next_unread(rest, seen) == Some(0int));
                    assert(self@.queue =~= first.skip(k + 1));
                }
                return Some((path, token));
            }
        }
        assert(first.skip(self.head - start).len() == 0);
        None
    }

    /// Records the object just read, and queues its children.
    pub fn accept(&mut self, node: MirrorNode, token: u64, children: Vec<(String, u64)>)
        requires
            old(self).wf(),
            old(self)@.nodes.len() < MAX_NODES_PER_WINDOW,
            !paths_of(old(self)@.nodes).contains(node.path@),
        ensures
            final(self).wf(),
            final(self)@ == (WalkView {
                queue: old(self)@.queue + reference_views(children@),
                nodes: old(self)@.nodes.push(node),
                tokens: old(self)@.tokens.push(token),
            }),
    {
        let mut children: Vec<(String, u64)> = children;
        let ghost (queue, added, nodes) = (self.queue@, children@, self.nodes@);
        self.queue.append(&mut children);
        self.seen.insert(node.path.as_str());
        self.nodes.push(node);
        self.tokens.push(token);
        proof {
            assert(self@.queue =~= reference_views(queue.skip(self.head as int)) + reference_views(
                added,
            ));
            let (before, after) = (paths_of(nodes), paths_of(self.nodes@));
            assert(self.nodes@.drop_last() =~= nodes);
            assert forall|p: Seq<char>| after.contains(p) <==> before.contains(p) || p
                == node.path@ by {
                if after.contains(p) {
                    let j = after.index_of(p);
                    if j < before.len() {
                        assert(before[j] == p);
                    }
                }
                if before.contains(p) {
                    let j = before.index_of(p);
                    assert(after[j] == p);
                }
                assert(after[before.len() as int] == node.path@);
            }
            assert(self.seen@ =~= after.to_set());
            assert forall|i: int, j: int| 0 <= i < j < self.nodes@.len() implies (
            #[trigger] self.nodes@[i]).path@ != (#[trigger] self.nodes@[j]).path@ by {
                if j < nodes.len() {
                    assert(nodes[i].path@ != nodes[j].path@);
                } else {
                    assert(before[i] == nodes[i].path@);
                }
            }
        }
    }

    /// What was walked: the nodes, root first, and the token of each.
    pub fn finish(self) -> (walked: (Vec<MirrorNode>, Vec<u64>))
        requires
            self.wf(),
        ensures
            walked.0@ == self@.nodes,
            walked.1@ == self@.tokens,
            distinct_paths(walked.0@),
            walked.0@.len() == walked.1@.len(),
    {
        (self.nodes, self.tokens)
    }
}

// ---------------------------------------------------------------- climbs

/// A climb from an unwalked descendant towards an ancestor the window has.
pub struct Climb {
    /// What has been read, the descendant first.
    chain: Vec<(MirrorNode, u64)>,
    hops_left: usize,
}

/// What a climb needs next.
pub enum ClimbStep {
    /// The parent of the last object read.
    Parent,
    /// Nothing: this is the chain, the known ancestor first.
    Reached(Vec<(MirrorNode, u64)>),
    /// Nothing: the ancestor is out of reach.
    GivenUp,
}

impl Climb {
    /// What has been read so far, the descendant first.
    pub closed spec fn read(&self) -> Seq<(MirrorNode, u64)> {
        self.chain@
    }

    pub closed spec fn left(&self) -> nat {
        self.hops_left as nat
    }

    pub fn new(max_hops: usize) -> (climb: Self)
        ensures
            climb.read() == Seq::<(MirrorNode, u64)>::empty(),
            climb.left() == max_hops,
    {
        Climb { chain: Vec::new(), hops_left: max_hops }
    }

    /// Whether another object may be read.
    pub fn may_read(&self) -> (more: bool)
        ensures
            more == (self.left() > 0),
    {
        self.hops_left > 0
    }

    /// Takes the object just read, or `None` if it could not be, and says what is
    /// needed next.
    pub fn step(self, read: Option<(MirrorNode, u64)>, known: &PathSet) -> (next: (
        Option<Self>,
        ClimbStep,
    ))
        requires
            self.left() > 0,
        ensures
            match read {
                Some(entry) => if known@.contains(entry.0.path@) {
                    next.0 is None && (next.1 matches ClimbStep::Reached(chain) && chain@
                        == self.read().push(entry).reverse())
                } else if self.left() == 1 {
                    next.0 is None && next.1 is GivenUp
                } else {
                    next.1 is Parent && (next.0 matches Some(climb) && climb.read()
                        == self.read().push(entry) && climb.left() == self.left() - 1)
                },
                None => next.0 is None && next.1 is GivenUp,
            },
    {
        let (node, token): (MirrorNode, u64) = match read {
            Some(entry) => entry,
            None => {
                return (None, ClimbStep::GivenUp);
            },
        };
        let reached: bool = known.contains(node.path.as_str());
        let Climb { mut chain, hops_left } = self;
        chain.push((node, token));
        if reached {
            let chain: Vec<(MirrorNode, u64)> = reversed(chain);
            (None, ClimbStep::Reached(chain))
        } else if hops_left == 1 {
            (None, ClimbStep::GivenUp)
        } else {
            (Some(Climb { chain, hops_left: hops_left - 1 }), ClimbStep::Parent)
        }
    }
}

fn reversed(list: Vec<(MirrorNode, u64)>) -> (back: Vec<(MirrorNode, u64)>)
    ensures
        back@ == list@.reverse(),
{
    let mut list: Vec<(MirrorNode, u64)> = list;
    let mut back: Vec<(MirrorNode, u64)> = Vec::new();
    let ghost all = list@;
    while list.len() > 0
        invariant
            list@.len() + back@.len() == all.len(),
            list@ == all.take(list@.len() as int),
            back@ == all.skip(list@.len() as int).reverse(),
        decreases list.len(),
    {
        let ghost n = list@.len() as int;
        match list.pop() {
            Some(entry) => {
                back.push(entry);
                proof {
                    assert(entry == all[n - 1]);
                    assert(all.skip(n - 1) =~= seq![entry] + all.skip(n));
                    assert(back@ =~= all.skip(n - 1).reverse());
                }
            },
            None => {},
        }
    }
    assert(all.skip(0) =~= all);
    back
}

// ---------------------------------------------------------------- what is read, and how

/// A toplevel is a frame, a window or a dialog that is both visible and showing, and
/// nothing else is.
pub proof fn law_a_toplevel_is_seen(role: Role, states: Set<State>)
    ensures
        visible_toplevel(role, states) ==> states.contains(State::Showing) && states.contains(
            State::Visible,
        ) && (nearest_role(role) == tree::Role::Window || role == Role::Dialog),
        states.contains(State::Showing) && states.contains(State::Visible) && nearest_role(role)
            == tree::Role::Window ==> visible_toplevel(role, states),
        states.contains(State::Showing) && states.contains(State::Visible) && role == Role::Dialog
            ==> visible_toplevel(role, states),
{
}

/// Nothing is read through an interface that is not there, and what is there is read
/// where the role is worth it: a text where it is mirrored as runs, with its caret where
/// it has one, and a number where the role carries one.
pub proof fn law_nothing_is_read_blind(
    role: Role,
    interfaces: Set<Interface>,
    has_children: bool,
    with_text: bool,
)
    ensures
        ({
            let plan = worth_reading(role, interfaces, has_children, with_text);
            &&& plan.text <==> with_text && interfaces.contains(Interface::Text) && (editable_text(
                role,
            ) || static_text(role) && !has_children)
            &&& plan.caret ==> plan.text && (editable_text(role) || role == Role::Terminal)
            &&& plan.text && (editable_text(role) || role == Role::Terminal) ==> plan.caret
            &&& plan.extents == interfaces.contains(Interface::Component)
            &&& plan.value <==> interfaces.contains(Interface::Value) && carries_value(role)
            &&& plan.attributes == carries_attributes(role)
            &&& plan.relations == carries_relations(role)
            &&& plan.table == interfaces.contains(Interface::Table)
            &&& plan.cell == interfaces.contains(Interface::TableCell)
        }),
{
}

/// The paths that are there are kept, in their order.
pub proof fn law_paths_that_are_there_are_kept(paths: Seq<Option<String>>)
    ensures
        present(paths) == paths.filter(|p: Option<String>| p is Some).map_values(
            |p: Option<String>| p->0@,
        ),
    decreases paths.len(),
{
    reveal(Seq::filter);
    let there = |p: Option<String>| p is Some;
    let path = |p: Option<String>| p->0@;
    if paths.len() > 0 {
        let init = paths.drop_last();
        law_paths_that_are_there_are_kept(init);
        if there(paths.last()) {
            assert(init.filter(there).push(paths.last()).map_values(path) =~= init.filter(
                there,
            ).map_values(path).push(paths.last()->0@));
        }
    } else {
        assert(paths.filter(there).map_values(path) =~= Seq::empty());
    }
}

/// A caret that lies in the text stays where it is; one beyond it is at its end, and a
/// negative one is none.
pub proof fn law_a_caret_in_the_text_stays(offset: i32, len: nat)
    requires
        len <= usize::MAX,
    ensures
        offset < 0 ==> caret_in(Some(offset), len) is None,
        0 <= offset <= len ==> caret_in(Some(offset), len) == Some(offset as usize),
        0 <= offset && offset > len ==> caret_in(Some(offset), len) == Some(len as usize),
        caret_in(None, len) is None,
{
}

/// A selection that lies in the text stays as it is, and which end comes first makes no
/// difference. One that begins beyond the text, holds nothing or has a negative end is
/// none; one that reaches beyond the text ends with it.
pub proof fn law_a_selection_in_the_text_stays(start: i32, end: i32, len: nat)
    requires
        len <= usize::MAX,
    ensures
        selection_in(Some((start, end)), len) == selection_in(Some((end, start)), len),
        0 <= start < end && end <= len ==> selection_in(Some((start, end)), len) == Some(
            (start as usize, end as usize),
        ),
        0 <= start && start < len && end > len ==> selection_in(Some((start, end)), len) == Some(
            (start as usize, len as usize),
        ),
        start < 0 || start == end || start >= len && end >= len ==> selection_in(
            Some((start, end)),
            len,
        ) is None,
        selection_in(None, len) is None,
{
}

/// The next object to read is the first in the queue whose path was not read yet, and
/// there is none only if all were.
pub proof fn law_objects_are_read_in_turn(
    queue: Seq<(Seq<char>, u64)>,
    seen: Set<Seq<char>>,
    j: int,
)
    ensures
        match next_unread(queue, seen) {
            Some(i) => 0 <= i < queue.len() && !seen.contains(queue[i].0) && (0 <= j < i
                ==> seen.contains(queue[j].0)),
            None => 0 <= j < queue.len() ==> seen.contains(queue[j].0),
        },
    decreases queue.len(),
{
    if queue.len() > 0 && seen.contains(queue[0].0) {
        let rest = queue.drop_first();
        law_objects_are_read_in_turn(rest, seen, j - 1);
        if 0 < j < queue.len() {
            assert(rest[j - 1] == queue[j]);
        }
    }
}

/// What was read of an object is what its node holds: each reading in its place. What
/// could not be read is left out, and an object without a role has the invalid one.
pub proof fn law_a_node_holds_what_was_read(reads: NodeReads, node: MirrorNode)
    requires
        call_ensures(mirror_node, (reads,), node),
    ensures
        node.path@ == reads.path@,
        reads.role is Some ==> node.role == reads.role->0,
        reads.role is None ==> node.role == Role::Invalid,
        reads.name is Some ==> node.name@ == reads.name->0@,
        reads.name is None ==> node.name@.len() == 0,
        reads.description is Some ==> node.description@ == reads.description->0@,
        reads.description is None ==> node.description@.len() == 0,
        reads.interfaces is Some ==> node.interfaces@ == reads.interfaces->0@,
        reads.interfaces is None ==> node.interfaces@.is_empty(),
        reads.states is Some ==> node.states == distilled(reads.states->0@),
        reads.states is None ==> node.states == distilled(Set::empty()),
        views(node.children@) == reads.children@.filter(
            |p: Option<String>| p is Some,
        ).map_values(|p: Option<String>| p->0@),
        node.text == reads.text,
        node.bounds == reads.bounds,
        node.value == reads.value,
        node.table == reads.table,
        node.cell == reads.cell,
        reads.attributes is Some ==> node.attributes == reads.attributes->0,
        node.relations == reads.relations,
{
    law_paths_that_are_there_are_kept(reads.children@);
}

/// A selection is asked for from its lower end to its higher, whichever is the anchor, and
/// a selection of nothing is a caret.
pub proof fn law_a_selection_is_asked_for_in_order(
    anchor: usize,
    focus: usize,
    call: SelectionCall,
    turned: SelectionCall,
)
    requires
        anchor <= i32::MAX,
        focus <= i32::MAX,
        call_ensures(selection_call, (anchor, focus), call),
        call_ensures(selection_call, (focus, anchor), turned),
    ensures
        call == turned,
        call matches SelectionCall::Range(low, high) ==> low < high && (low == anchor && high
            == focus || low == focus && high == anchor),
        call matches SelectionCall::Caret(at) ==> at == anchor && at == focus,
        anchor == focus ==> call is Caret,
{
}

/// The geometry of a text is read where it is wanted and the text is not too long; at most
/// so many characters of it are read as are mirrored.
pub proof fn law_long_texts_have_no_geometry(raw: &str, with_geometry: bool, plan: (usize, bool))
    requires
        call_ensures(text_extent_plan, (raw, with_geometry), plan),
    ensures
        raw@.len() <= 65_536 ==> plan.0 == raw@.len(),
        raw@.len() > 65_536 ==> plan.0 == 65_536,
        plan.1 <==> with_geometry && raw@.len() <= 512,
{
    law_a_long_text_is_cut_at_the_end(raw@);
}

} // verus!
