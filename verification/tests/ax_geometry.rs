//! Text measured character by character, and what a consumer makes of it.

use accesskit_remote::ax::element::NodeIdMap;
use accesskit_remote::ax::geometry::geometry_ranges;
use accesskit_remote::ax::geometry::has_area;
use accesskit_remote::ax::geometry::run_edges;
use accesskit_remote::ax::geometry::starts_new_visual_line;
use accesskit_remote::ax::geometry::wraps;
use accesskit_remote::ax::geometry::CharacterRow;
use accesskit_remote::ax::geometry::Edges;
use accesskit_remote::ax::text::build_runs;
use accesskit_remote::ax::text::position;
use accesskit_remote::ax::text::run_spans;
use accesskit_remote::ax::text::RunLayout;
use accesskit_remote::ax::text::MAX_GEOMETRY_CHARS;
use accesskit_remote::number::Float64;
use accesskit_remote::tree::Node;
use accesskit_remote::tree::NodeId;

fn bits(number: f64) -> Float64 {
    Float64(number.to_bits())
}

/// Characters as they were measured: `(x, y, width, height)`.
struct Geometry {
    characters: Vec<(f64, f64, f64, f64)>,
}

fn geometry(chars: &[(f64, f64, f64, f64)]) -> Geometry {
    Geometry { characters: chars.to_vec() }
}

impl Geometry {
    fn rows(&self) -> Vec<CharacterRow> {
        let mut rows = Vec::new();
        for (i, c) in self.characters.iter().enumerate() {
            let above = if i == 0 { c.1 } else { self.characters[i - 1].1 };
            rows.push(CharacterRow { rise: bits((c.1 - above).abs()), half_height: bits(c.3 * 0.5) });
        }
        rows
    }

    fn boxes(&self) -> Vec<Edges> {
        self.characters
            .iter()
            .map(|c| Edges {
                left: bits(c.0),
                top: bits(c.1),
                right: bits(c.0 + c.2),
                bottom: bits(c.1 + c.3),
            })
            .collect()
    }

    /// The edges of a run, as numbers.
    fn edges(&self, run: &RunLayout) -> Option<(f64, f64, f64, f64)> {
        let edges = run_edges(&self.boxes(), run.start, run.len)?;
        let number = |bits: Float64| f64::from_bits(bits.0);
        Some((number(edges.left), number(edges.top), number(edges.right), number(edges.bottom)))
    }

    /// Where each character of a run starts within it.
    fn positions(&self, run: &RunLayout) -> Option<Vec<f32>> {
        let (left, _, _, _) = self.edges(run)?;
        Some(
            self.characters[run.start..run.start + run.len]
                .iter()
                .map(|c| (c.0 - left) as f32)
                .collect(),
        )
    }

    fn widths(&self, run: &RunLayout) -> Option<Vec<f32>> {
        self.edges(run)?;
        Some(
            self.characters[run.start..run.start + run.len]
                .iter()
                .map(|c| c.2 as f32)
                .collect(),
        )
    }
}

fn measured_runs(text: &str, geometry: &Geometry) -> (Vec<(NodeId, Node)>, Vec<RunLayout>) {
    let mut ids = NodeIdMap::new();
    build_runs(text, &wraps(&geometry.rows()), NodeId(1), &mut ids)
}

#[test]
fn character_positions_are_relative_to_their_own_run() {
    // Two lines, the second lower down. Each run's positions must be
    // measured from that run's own left edge, not the element's.
    let geo = geometry(&[
        (10.0, 0.0, 8.0, 16.0),
        (18.0, 0.0, 4.0, 16.0),
        (10.0, 16.0, 9.0, 16.0),
    ]);
    let (nodes, layout) = measured_runs("a\nb", &geo);
    assert_eq!(nodes.len(), 2);

    let first = &layout[0];
    assert_eq!(geo.positions(first), Some(vec![0.0f32, 8.0]), "offset from this run's left");
    assert_eq!(geo.widths(first), Some(vec![8.0f32, 4.0]));
    let bounds = geo.edges(first).expect("a run with geometry has bounds");
    assert_eq!((bounds.0, bounds.1, bounds.2), (10.0, 0.0, 22.0));

    let second = &layout[1];
    assert_eq!(geo.positions(second), Some(vec![0.0f32]), "the second line restarts at zero");
    assert_eq!(geo.edges(second).expect("bounds").1, 16.0, "and sits lower");
}

#[test]
fn a_wrapped_line_becomes_its_own_run() {
    // "abcd" with no newline, wrapping after "ab": the third character
    // starts a new row.
    let geo = geometry(&[
        (0.0, 0.0, 8.0, 16.0),
        (8.0, 0.0, 8.0, 16.0),
        (0.0, 16.0, 8.0, 16.0),
        (8.0, 16.0, 8.0, 16.0),
    ]);
    let (nodes, layout) = measured_runs("abcd", &geo);
    assert_eq!(nodes.len(), 2, "one run per visual line");
    assert_eq!(nodes[0].1.value.as_deref(), Some("ab"));
    assert_eq!(nodes[1].1.value.as_deref(), Some("cd"));

    // Each run sits on its own row, and positions restart within it.
    assert_eq!(geo.edges(&layout[0]).unwrap().1, 0.0);
    assert_eq!(geo.edges(&layout[1]).unwrap().1, 16.0);
    assert_eq!(geo.positions(&layout[1]), Some(vec![0.0f32, 8.0]));

    // The layout still spans the whole text, so caret offsets resolve.
    assert_eq!(layout[0].start, 0);
    assert_eq!(layout[1].start, 2);
    assert_eq!(position(&layout, 3).unwrap().node, nodes[1].0);
}

#[test]
fn a_baseline_wobble_within_a_line_is_not_a_wrap() {
    // Mixed font sizes on one line shift y slightly; that must not split.
    let geo = geometry(&[
        (0.0, 0.0, 8.0, 16.0),
        (8.0, 2.0, 8.0, 14.0),
        (16.0, 0.0, 8.0, 16.0),
    ]);
    let (nodes, _) = measured_runs("abc", &geo);
    assert_eq!(nodes.len(), 1, "a 2px shift is not a new line");
}

#[test]
fn a_geometry_that_does_not_match_the_text_is_declined() {
    // Misaligned arrays misplace every character after the gap, which is
    // worse than having none.
    let geo = geometry(&[(0.0, 0.0, 8.0, 16.0)]);
    let (_, layout) = measured_runs("abc", &geo);
    assert!(geo.edges(&layout[0]).is_none(), "3 characters, 1 rectangle: refuse");
}

/// A two-line text element inside a window, in the shape a walk emits.
///
/// The container's rectangle extends far below its text, as a real text view's
/// does. Characters are 8pt wide and 16pt tall, the first line at y 0 and the
/// second at y 16, both starting at x 10.
fn two_line_text_element() -> accesskit::TreeUpdate {
    let geo = geometry(&[
        (10.0, 0.0, 8.0, 16.0),  // 'a'
        (18.0, 0.0, 8.0, 16.0),  // 'b'
        (26.0, 0.0, 0.0, 16.0),  // the newline, zero width
        (10.0, 16.0, 8.0, 16.0), // 'c'
        (18.0, 16.0, 8.0, 16.0), // 'd'
    ]);
    let (runs, layout) = measured_runs("ab\ncd", &geo);
    let mut wire = Vec::new();
    for (i, (_, run)) in runs.iter().enumerate() {
        let mut node = accesskit::Node::new(accesskit::Role::TextRun);
        node.set_value(run.value.as_deref().unwrap());
        node.set_character_lengths(run.character_lengths.clone());
        node.set_text_direction(accesskit::TextDirection::LeftToRight);
        let (x0, y0, x1, y1) = geo.edges(&layout[i]).unwrap();
        node.set_bounds(accesskit::Rect { x0, y0, x1, y1 });
        node.set_character_positions(geo.positions(&layout[i]).unwrap());
        node.set_character_widths(geo.widths(&layout[i]).unwrap());
        wire.push((accesskit::NodeId(i as u64 + 10), node));
    }

    let mut container = accesskit::Node::new(accesskit::Role::MultilineTextInput);
    container.set_children(wire.iter().map(|(id, _)| *id).collect::<Vec<_>>());
    container.set_bounds(accesskit::Rect { x0: 10.0, y0: 0.0, x1: 400.0, y1: 300.0 });

    let mut root = accesskit::Node::new(accesskit::Role::Window);
    root.set_children(vec![accesskit::NodeId(2)]);
    root.set_bounds(accesskit::Rect { x0: 0.0, y0: 0.0, x1: 400.0, y1: 300.0 });

    let mut nodes = vec![(accesskit::NodeId(1), root), (accesskit::NodeId(2), container)];
    nodes.extend(wire);
    accesskit::TreeUpdate {
        nodes,
        tree: Some(accesskit::Tree::new(accesskit::NodeId(1))),
        tree_id: accesskit::TreeId::ROOT,
        focus: accesskit::NodeId(2),
    }
}

#[test]
fn a_point_on_a_character_resolves_to_that_character() {
    let tree = accesskit_consumer::Tree::new(two_line_text_element(), true);
    let state = tree.state();
    let element = state
        .node_by_tree_local_id(accesskit::NodeId(2), accesskit::TreeId::ROOT)
        .expect("the text element is in the consumer's tree");
    assert!(element.supports_text_ranges(), "a consumer will answer range queries");

    // The centre of each character, in window coordinates, must resolve to
    // that character's index across the whole element.
    for (x, y, expected, what) in [
        (14.0, 8.0, 0, "'a', first line"),
        (22.0, 8.0, 1, "'b', first line"),
        (14.0, 24.0, 3, "'c', second line"),
        (22.0, 24.0, 4, "'d', second line"),
    ] {
        let position = element.text_position_at_point(accesskit::Point::new(x, y));
        assert_eq!(position.to_global_usv_index(), expected, "{what}");
    }
}

#[test]
fn a_point_in_the_empty_space_below_the_text_is_the_end_of_the_document() {
    let tree = accesskit_consumer::Tree::new(two_line_text_element(), true);
    let state = tree.state();
    let element = state
        .node_by_tree_local_id(accesskit::NodeId(2), accesskit::TreeId::ROOT)
        .unwrap();

    // The centre of the element, well below two lines of text.
    let position = element.text_position_at_point(accesskit::Point::new(200.0, 150.0));
    assert!(position.is_document_end(), "past the last character");

    // Above and left of the first character is the other end.
    let position = element.text_position_at_point(accesskit::Point::new(0.0, -5.0));
    assert!(position.is_document_start());
}

#[test]
fn only_a_positive_size_covers_anything() {
    assert!(has_area(bits(0.5), bits(3.0)));
    assert!(!has_area(bits(0.0), bits(3.0)));
    assert!(!has_area(bits(3.0), bits(-0.0)));
    assert!(!has_area(bits(-1.0), bits(3.0)));
    assert!(!has_area(bits(f64::NAN), bits(3.0)));
}

#[test]
fn each_character_is_asked_for_by_its_code_units() {
    assert_eq!(geometry_ranges("a\u{1F600}b"), Some(vec![(0, 1), (1, 2), (3, 1)]));
    assert_eq!(geometry_ranges(""), None, "nothing to measure");
    assert!(geometry_ranges(&"x".repeat(MAX_GEOMETRY_CHARS)).is_some());
    assert_eq!(geometry_ranges(&"x".repeat(MAX_GEOMETRY_CHARS + 1)), None, "too much to measure");
}

#[test]
fn a_line_starts_beyond_a_point_and_beyond_half_of_either_height() {
    let row = |rise: f64, half: f64| CharacterRow { rise: bits(rise), half_height: bits(half) };
    assert!(starts_new_visual_line(row(0.0, 8.0), row(8.5, 8.0)));
    assert!(!starts_new_visual_line(row(0.0, 8.0), row(8.0, 8.0)), "exactly half is not beyond it");
    assert!(!starts_new_visual_line(row(0.0, 9.0), row(8.5, 2.0)), "the taller counts");
    assert!(!starts_new_visual_line(row(0.0, 0.25), row(1.0, 0.25)), "at least a point");
    assert!(starts_new_visual_line(row(0.0, f64::NAN), row(1.5, f64::NAN)));
    assert!(!starts_new_visual_line(row(0.0, 8.0), row(f64::NAN, 8.0)));
}

#[test]
fn a_run_encloses_its_characters() {
    let geo = geometry(&[(3.0, 2.0, 4.0, 10.0), (1.0, 5.0, 1.0, 20.0), (9.0, 0.0, 0.0, 1.0)]);
    let run = RunLayout { id: NodeId(7), start: 0, len: 2 };
    assert_eq!(geo.edges(&run), Some((1.0, 2.0, 7.0, 25.0)));
    // A newline alone covers nothing.
    let newline = RunLayout { id: NodeId(7), start: 2, len: 1 };
    assert_eq!(geo.edges(&newline), None);
    // Neither does an empty run.
    let empty = RunLayout { id: NodeId(7), start: 3, len: 0 };
    assert_eq!(geo.edges(&empty), None);
    // An edge that is not finite places nothing.
    let lost = geometry(&[(f64::INFINITY, 0.0, 1.0, 1.0)]);
    assert_eq!(lost.edges(&RunLayout { id: NodeId(7), start: 0, len: 1 }), None);
}

#[test]
fn runs_are_made_of_consecutive_characters() {
    assert_eq!(run_spans("ab\ncd", &[]), vec![(0, 3), (3, 2)]);
    assert_eq!(run_spans("abcd", &[false, false, true, false]), vec![(0, 2), (2, 2)]);
    assert_eq!(run_spans("ab\n", &[]), vec![(0, 3), (3, 0)], "a run for the caret");
    assert_eq!(run_spans("", &[]), vec![(0, 0)]);
}
