//! A window of the desktop that is walked and refreshed, and what a consumer makes of
//! it.

use accesskit_remote::ax::attr::AxValue;
use accesskit_remote::ax::delta::WireUpdate;
use accesskit_remote::ax::discovery::Window;
use accesskit_remote::ax::element::ElementKey;
use accesskit_remote::ax::node::AxNode;
use accesskit_remote::ax::node::NodeStates;
use accesskit_remote::ax::source::Desktop;
use accesskit_remote::ax::source::Routed;
use accesskit_remote::ax::source::REWALK_QUIET;
use accesskit_remote::messages::AppInfo;
use accesskit_remote::messages::WindowId;
use accesskit_remote::tree::Node;
use accesskit_remote::tree::NodeId;
use accesskit_remote::tree::TextPosition;
use accesskit_remote::tree::TreeUpdate;

fn key(n: u64) -> ElementKey {
    ElementKey::new(10, n)
}

fn element(n: u64, role: &str, children: Vec<ElementKey>) -> AxNode {
    AxNode {
        key: key(n),
        role: role.to_owned(),
        subrole: None,
        title: String::new(),
        description: String::new(),
        value: None,
        states: NodeStates::default(),
        actions: Vec::new(),
        children,
        selected_range: None,
        name_from_contents: None,
        wraps: Vec::new(),
    }
}

/// A text view that holds a link, with a caret.
fn text_area(text: &str) -> AxNode {
    let mut node = element(2, "AXTextArea", vec![key(3)]);
    node.value = Some(AxValue::Text(text.to_owned()));
    node.selected_range = Some((1, 2));
    node
}

fn link(title: &str) -> AxNode {
    let mut node = element(3, "AXLink", vec![]);
    node.title = title.to_owned();
    node
}

fn walk(text: &str) -> Vec<AxNode> {
    vec![element(1, "AXWindow", vec![key(2)]), text_area(text), link("more")]
}

fn wire_id(id: NodeId) -> accesskit::NodeId {
    accesskit::NodeId(id.0)
}

/// As much of a node as matters here, ready for the wire.
fn ready(node: &Node) -> accesskit::Node {
    let name = format!("{:?}", node.props.role);
    let name = name[..1].to_ascii_lowercase() + &name[1..];
    let role = serde_json::from_value(serde_json::Value::String(name)).unwrap();
    let mut out = accesskit::Node::new(role);
    if let Some(label) = &node.label {
        out.set_label(label.as_str());
    }
    if let Some(value) = &node.value {
        out.set_value(value.as_str());
    }
    if !node.children.is_empty() {
        out.set_children(node.children.iter().map(|id| wire_id(*id)).collect::<Vec<_>>());
    }
    if !node.character_lengths.is_empty() {
        out.set_character_lengths(node.character_lengths.clone());
    }
    if let Some(selection) = node.props.text_selection {
        let place = |position: TextPosition| accesskit::TextPosition {
            node: wire_id(position.node),
            character_index: position.character_index,
        };
        out.set_text_selection(accesskit::TextSelection {
            anchor: place(selection.anchor),
            focus: place(selection.focus),
        });
    }
    out
}

fn readied(update: &TreeUpdate) -> WireUpdate {
    WireUpdate {
        nodes: update.nodes.iter().map(|(id, node)| (*id, ready(node))).collect(),
        tree: update.tree.as_ref().map(|tree| accesskit::Tree::new(wire_id(tree.root))),
        tree_id: accesskit::TreeId::ROOT,
        focus: update.focus,
    }
}

fn on_the_wire(update: WireUpdate) -> accesskit::TreeUpdate {
    accesskit::TreeUpdate {
        nodes: update.nodes.into_iter().map(|(id, node)| (wire_id(id), node)).collect(),
        tree: update.tree,
        tree_id: update.tree_id,
        focus: wire_id(update.focus),
    }
}

struct NoOpChanges;

impl accesskit_consumer::TreeChangeHandler for NoOpChanges {
    fn node_added(&mut self, _: &accesskit_consumer::Node) {}
    fn node_updated(&mut self, _: &accesskit_consumer::Node, _: &accesskit_consumer::Node) {}
    fn focus_moved(
        &mut self,
        _: Option<&accesskit_consumer::Node>,
        _: Option<&accesskit_consumer::Node>,
    ) {
    }
    fn node_removed(&mut self, _: &accesskit_consumer::Node) {}
}

/// A desktop with one window, and a consumer that was sent its tree.
struct Mirrored {
    desktop: Desktop,
    consumer: accesskit_consumer::Tree,
}

impl Mirrored {
    fn new(nodes: &[AxNode]) -> Self {
        let mut desktop = Desktop::new();
        let window = Window {
            key: key(1),
            title: "window".to_owned(),
            subrole: None,
            app: AppInfo::default(),
            native_window_id: None,
            active: true,
        };
        let (descriptor, tree) = desktop.add_window(window, nodes).unwrap();
        let sent = desktop.emit_walk(descriptor.id, readied(&tree)).unwrap();
        let consumer = accesskit_consumer::Tree::new(on_the_wire(sent), false);
        Mirrored { desktop, consumer }
    }

    /// Walks the window again; how many nodes were sent, if anything was.
    fn rewalk(&mut self, nodes: &[AxNode]) -> Option<usize> {
        let full = self.desktop.rewalk(WindowId(1), nodes, 0)?;
        let sent = self.desktop.emit_walk(WindowId(1), readied(&full))?;
        let count = sent.nodes.len();
        self.consumer.update_and_process_changes(on_the_wire(sent), &mut NoOpChanges);
        Some(count)
    }

    /// Refreshes one element; how many nodes were sent, if anything was.
    fn refresh(&mut self, read: &AxNode) -> Option<usize> {
        let (id, node) = self.desktop.refreshed(0, read.key, read)?;
        let root = accesskit::TreeId::ROOT;
        let sent = self.desktop.emit_refresh(0, id, ready(&node), root)?;
        let count = sent.nodes.len();
        self.consumer.update_and_process_changes(on_the_wire(sent), &mut NoOpChanges);
        Some(count)
    }

    fn id(&self, n: u64) -> accesskit::NodeId {
        wire_id(self.desktop.windows[0].ids.get(key(n)).unwrap())
    }

    fn holds(&self, n: u64) -> bool {
        let id = self.id(n);
        self.consumer.state().node_by_tree_local_id(id, accesskit::TreeId::ROOT).is_some()
    }

    /// What the consumer holds of the text view: its value, its children's values, and
    /// whether it has a selection.
    fn text(&self) -> (String, Vec<String>, bool) {
        let state = self.consumer.state();
        let node = state.node_by_tree_local_id(self.id(2), accesskit::TreeId::ROOT).unwrap();
        let runs = node.children().map(|child| child.value().unwrap_or_default()).collect();
        (node.data().value().unwrap_or("").to_owned(), runs, node.data().text_selection().is_some())
    }
}

fn texts(all: &[&str]) -> Vec<String> {
    all.iter().map(|text| (*text).to_owned()).collect()
}

#[test]
fn an_unchanged_refresh_sends_nothing() {
    let mut mirrored = Mirrored::new(&walk("one\ntwo"));
    for node in walk("one\ntwo") {
        assert_eq!(mirrored.refresh(&node), None);
    }
    assert_eq!(mirrored.text(), ("one\ntwo".to_owned(), texts(&["", "one\n", "two"]), true));
}

#[test]
fn a_refreshed_text_keeps_its_runs_until_the_next_walk() {
    let mut mirrored = Mirrored::new(&walk("one\ntwo"));
    // Typing is reported as a new value; the runs and the selection ride the walk.
    assert_eq!(mirrored.refresh(&text_area("one\ntwo!")), Some(1));
    assert_eq!(mirrored.text(), ("one\ntwo!".to_owned(), texts(&["", "one\n", "two"]), true));
    assert_eq!(mirrored.refresh(&text_area("one\ntwo!")), None, "it settles");

    // The walk sends the run that changed; the container is held as it is.
    assert_eq!(mirrored.rewalk(&walk("one\ntwo!")), Some(1));
    assert_eq!(mirrored.text(), ("one\ntwo!".to_owned(), texts(&["", "one\n", "two!"]), true));
    assert_eq!(mirrored.rewalk(&walk("one\ntwo!")), None);

    // A line more, and then all but one gone.
    assert_eq!(mirrored.refresh(&text_area("1\n2\n3")), Some(1));
    assert_eq!(mirrored.rewalk(&walk("1\n2\n3")), Some(4));
    assert_eq!(mirrored.text().1, texts(&["", "1\n", "2\n", "3"]));
    assert_eq!(mirrored.refresh(&text_area("1")), Some(1));
    assert_eq!(mirrored.rewalk(&walk("1")), Some(2));
    assert_eq!(mirrored.text().1, texts(&["", "1"]));
    assert_eq!(mirrored.rewalk(&walk("1\n2")), Some(3));
    assert_eq!(mirrored.text().1, texts(&["", "1\n", "2"]));
}

#[test]
fn a_refresh_takes_its_shape_from_what_was_emitted() {
    let mut mirrored = Mirrored::new(&walk("one"));
    let mut read = text_area("one");
    read.children = vec![];
    read.selected_range = None;
    read.value = None;
    assert_eq!(mirrored.refresh(&read), Some(1));
    assert_eq!(mirrored.text(), (String::new(), texts(&["", "one"]), true));
    assert!(mirrored.holds(3));
}

#[test]
fn an_element_that_a_walk_no_longer_reached_is_not_refreshed() {
    let mut mirrored = Mirrored::new(&walk("one"));
    let mut nodes = walk("one");
    nodes.pop();
    assert_eq!(mirrored.rewalk(&nodes), Some(1));
    assert!(!mirrored.holds(3));
    assert_eq!(mirrored.refresh(&link("less")), None, "the consumer dropped it");
    assert_eq!(mirrored.desktop.route_notification("AXTitleChanged", key(3), 0), Routed::Done);
    assert_eq!(mirrored.desktop.take_due(REWALK_QUIET), vec![WindowId(1)], "a walk may find it");
    assert_eq!(mirrored.rewalk(&walk("one")), Some(2));
    assert!(mirrored.holds(3));
    assert_eq!(mirrored.desktop.route_notification("AXTitleChanged", key(3), 0), Routed::Refresh(0));
    assert_eq!(mirrored.refresh(&link("less")), Some(1));
}

#[test]
fn a_walk_that_comes_up_empty_leaves_the_shape() {
    let mut mirrored = Mirrored::new(&walk("one"));
    assert_eq!(mirrored.rewalk(&[]), None);
    for node in walk("one") {
        assert_eq!(mirrored.refresh(&node), None);
    }
    assert_eq!(mirrored.rewalk(&walk("one")), None);
}
