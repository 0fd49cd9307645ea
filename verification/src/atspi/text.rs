//! An object's text as text runs, with the geometry of its characters, and the
//! caret and selection within it.

use crate::atspi::ids::extends;
use crate::atspi::ids::lemma_with_paths_extends;
use crate::atspi::ids::lemma_with_paths_push;
use crate::atspi::ids::with_paths;
use crate::atspi::ids::NodeIdMap;
use crate::atspi::node::CharExtent;
use crate::atspi::node::TextState;
use crate::lines::joined;
use crate::lines::law_lines_concatenate_to_the_text;
use crate::lines::lemma_start_of_next;
use crate::lines::lines;
use crate::lines::split_lines;
use crate::lines::start_of;
use crate::lines::widths_of;
use crate::strings::append;
use crate::strings::chars_of;
use crate::strings::decimal;
use crate::strings::lemma_numeral_value;
use crate::strings::numeral;
use crate::strings::utf8_widths;
use crate::strings::views;
use crate::strings::white_space;
use crate::tree::bare_node;
use crate::tree::list_view;
use crate::tree::node_views;
use crate::tree::Node;
use crate::tree::NodeId;
use crate::tree::NodeView;
use crate::tree::Properties;
use crate::tree::Rect;
use crate::tree::Role;
use crate::tree::TextDirection;
use crate::tree::TextPosition;
use crate::tree::TextSelection;
use vstd::prelude::*;

verus! {

/// Caps the text mirrored from one object, in characters, so that a huge
/// document cannot bloat a single update.
pub const MAX_TEXT_CHARS: usize = 65_536;

/// Caps the characters of one object whose extents are read: each costs one
/// round trip. Above this an object carries no geometry at all.
pub const MAX_GEOMETRY_CHARS: usize = 512;

/// The first [`MAX_TEXT_CHARS`] characters of a text.
pub open spec fn capped(text: Seq<char>) -> Seq<char> {
    if text.len() > MAX_TEXT_CHARS {
        text.take(MAX_TEXT_CHARS as int)
    } else {
        text
    }
}

/// Truncates `text` to at most [`MAX_TEXT_CHARS`] characters.
pub fn clamp_text(text: &str) -> (clamped: &str)
    ensures
        clamped@ == capped(text@),
{
    if text.unicode_len() > MAX_TEXT_CHARS {
        text.substring_char(0, MAX_TEXT_CHARS)
    } else {
        text
    }
}

/// The path of run `index` under `parent`. An object path holds no `#`, so this
/// is never the path of an object.
pub open spec fn path_of_run(parent: Seq<char>, index: nat) -> Seq<char> {
    parent + "#run"@ + numeral(index)
}

/// The paths of the first `count` runs under `parent`.
pub open spec fn paths_of_runs(parent: Seq<char>, count: nat) -> Seq<Seq<char>> {
    Seq::new(count, |i: int| path_of_run(parent, i as nat))
}

pub fn run_path(parent_path: &str, index: usize) -> (path: String)
    ensures
        path@ == path_of_run(parent_path@, index as nat),
{
    let mut path: String = parent_path.to_owned();
    append(&mut path, "#run");
    append(&mut path, decimal(index as u64).as_str());
    path
}

/// No two runs share a path, whatever objects they belong to.
pub proof fn law_run_paths_are_distinct(p: Seq<char>, i: nat, q: Seq<char>, j: nat)
    requires
        !p.contains('#'),
        !q.contains('#'),
        path_of_run(p, i) == path_of_run(q, j),
    ensures
        p == q,
        i == j,
{
    reveal_strlit("#run");
    let a = path_of_run(p, i);
    assert(a[p.len() as int] == '#');
    assert(a[q.len() as int] == '#');
    if p.len() < q.len() {
        assert(q[p.len() as int] == '#');
    }
    if q.len() < p.len() {
        assert(p[q.len() as int] == '#');
    }
    assert(p =~= a.take(p.len() as int));
    assert(q =~= a.take(q.len() as int));
    assert(numeral(i) =~= a.skip(p.len() as int + 4));
    assert(numeral(j) =~= a.skip(q.len() as int + 4));
    lemma_numeral_value(i);
    lemma_numeral_value(j);
}

/// The path of a run is the path of no object.
pub proof fn law_run_paths_are_not_object_paths(parent: Seq<char>, index: nat, object: Seq<char>)
    requires
        !object.contains('#'),
    ensures
        path_of_run(parent, index) != object,
{
    reveal_strlit("#run");
    assert(path_of_run(parent, index)[parent.len() as int] == '#');
    if path_of_run(parent, index) == object {
        assert(object[parent.len() as int] == '#');
    }
}

/// Splits text into one run per hard line; see [`lines`].
pub fn split_runs(text: &str) -> (runs: Vec<String>)
    ensures
        views(runs@) == lines(text@),
{
    split_lines(text)
}

/// The UTF-8 length of each character in `run`.
pub fn character_lengths(run: &str) -> (lengths: Vec<u8>)
    ensures
        lengths@ == utf8_widths(run@),
{
    widths_of(run)
}

/// Whether a word begins at character `i`: at the start of the run, or where
/// something follows white space.
pub open spec fn word_begins(run: Seq<char>, i: int) -> bool {
    i == 0 || (white_space(run[i - 1]) && !white_space(run[i]))
}

/// Where words begin in `run`, in order.
pub open spec fn word_begins_in(run: Seq<char>) -> Seq<int>
    decreases run.len(),
{
    if run.len() == 0 {
        Seq::empty()
    } else {
        let before = word_begins_in(run.drop_last());
        if word_begins(run, run.len() - 1) {
            before.push(run.len() - 1)
        } else {
            before
        }
    }
}

/// Whether each position fits a byte.
pub open spec fn fit_bytes(positions: Seq<int>) -> bool {
    forall|i: int| 0 <= i < positions.len() ==> #[trigger] positions[i] <= u8::MAX
}

pub proof fn lemma_fit_bytes_push(positions: Seq<int>, p: int)
    ensures
        fit_bytes(positions.push(p)) == (fit_bytes(positions) && p <= u8::MAX),
{
    let longer = positions.push(p);
    if fit_bytes(longer) {
        assert forall|i: int| 0 <= i < positions.len() implies #[trigger] positions[i]
            <= u8::MAX by {
            assert(longer[i] <= u8::MAX);
        }
        assert(longer[positions.len() as int] <= u8::MAX);
    }
}

/// Positions as bytes, or nothing where one of them does not fit.
pub open spec fn as_bytes_or_none(positions: Seq<int>) -> Seq<u8> {
    if !fit_bytes(positions) {
        Seq::empty()
    } else {
        positions.map_values(|p: int| p as u8)
    }
}

/// Where words begin within `run`, or nothing when a beginning does not fit a
/// byte: word navigation then falls back to whole lines.
pub fn word_starts(run: &str) -> (starts: Vec<u8>)
    ensures
        starts@ == as_bytes_or_none(word_begins_in(run@)),
{
    let chars: Vec<char> = chars_of(run);
    let mut starts: Vec<u8> = Vec::new();
    let mut overflowed: bool = false;
    let mut previous_space: bool = false;
    let mut i: usize = 0;
    while i < chars.len()
        invariant
            i <= chars.len(),
            chars@ == run@,
            i > 0 ==> previous_space == white_space(run@[i - 1]),
            overflowed == !fit_bytes(word_begins_in(run@.take(i as int))),
            !overflowed ==> starts@ == word_begins_in(run@.take(i as int)).map_values(
                |p: int| p as u8,
            ),
        decreases chars.len() - i,
    {
        let ghost seen = word_begins_in(run@.take(i as int));
        let ghost more = run@.take(i + 1);
        assert(more.drop_last() =~= run@.take(i as int));
        let space: bool = chars[i].is_whitespace();
        if i == 0 || (previous_space && !space) {
            assert(word_begins(more, i as int));
            let ghost now = word_begins_in(more);
            assert(now == seen.push(i as int));
            proof {
                lemma_fit_bytes_push(seen, i as int);
            }
            if i > 255 {
                overflowed = true;
            } else {
                starts.push(i as u8);
                if !overflowed {
                    assert(starts@ =~= now.map_values(|p: int| p as u8));
                }
            }
        } else {
            assert(!word_begins(more, i as int));
        }
        previous_space = space;
        i = i + 1;
    }
    assert(run@.take(i as int) =~= run@);
    if overflowed {
        Vec::new()
    } else {
        starts
    }
}

// ---------------------------------------------------------------- geometry

/// The box of one character, wide enough for every sum of extents.
#[derive(Debug, Clone, Copy, PartialEq, Eq, Structural)]
pub struct GlyphBox {
    pub x: i64,
    pub y: i64,
    pub width: i64,
    pub height: i64,
}

impl GlyphBox {
    /// Small enough that no sum of two sides overflows.
    pub open spec fn bounded(self) -> bool {
        &&& -0x1_0000_0000 <= self.x <= 0x1_0000_0000
        &&& -0x1_0000_0000 <= self.y <= 0x1_0000_0000
        &&& -0x1_0000_0000 <= self.width <= 0x1_0000_0000
        &&& -0x1_0000_0000 <= self.height <= 0x1_0000_0000
    }
}

/// Whether a toolkit reported nothing for a character.
pub open spec fn unreported(extent: CharExtent) -> bool {
    extent.x == 0 && extent.y == 0 && extent.width == 0 && extent.height == 0
}

/// Whether any extent before `end` was reported.
pub open spec fn any_reported(extents: Seq<CharExtent>, end: int) -> bool {
    exists|i: int| 0 <= i < end && !unreported(#[trigger] extents[i])
}

/// The first extent that was reported.
pub open spec fn first_reported(extents: Seq<CharExtent>) -> CharExtent {
    extents[first_reported_index(extents, 0)]
}

pub open spec fn first_reported_index(extents: Seq<CharExtent>, from: int) -> int
    decreases extents.len() - from,
{
    if from >= extents.len() || !unreported(extents[from]) {
        from
    } else {
        first_reported_index(extents, from + 1)
    }
}

/// The box of character `i`. A reported one has its own. An unreported one
/// stands, without width, at the right edge of the one before it; before any
/// was reported, at the left edge of the first that is.
pub open spec fn glyph_box(extents: Seq<CharExtent>, i: int) -> GlyphBox
    decreases i,
{
    let extent = extents[i];
    if !unreported(extent) {
        GlyphBox {
            x: extent.x as i64,
            y: extent.y as i64,
            width: extent.width as i64,
            height: extent.height as i64,
        }
    } else if i <= 0 || !any_reported(extents, i) {
        let donor = first_reported(extents);
        GlyphBox { x: donor.x as i64, y: donor.y as i64, width: 0, height: donor.height as i64 }
    } else {
        let left = glyph_box(extents, i - 1);
        GlyphBox { x: (left.x + left.width) as i64, y: left.y, width: 0, height: left.height }
    }
}

/// The box of every character, if any character's extent was reported.
pub open spec fn glyph_boxes(extents: Seq<CharExtent>) -> Option<Seq<GlyphBox>> {
    if any_reported(extents, extents.len() as int) {
        Some(Seq::new(extents.len(), |i: int| glyph_box(extents, i)))
    } else {
        None
    }
}

/// A side that was reported is an `i32`; one that was synthesised is a sum of
/// two, and carries no width into the next.
pub proof fn lemma_glyph_box_bounded(extents: Seq<CharExtent>, i: int)
    requires
        0 <= i < extents.len(),
    ensures
        ({
            let g = glyph_box(extents, i);
            &&& -0x8000_0000 <= g.y <= 0x7fff_ffff
            &&& -0x8000_0000 <= g.width <= 0x7fff_ffff
            &&& -0x8000_0000 <= g.height <= 0x7fff_ffff
            &&& if g.width == 0 {
                -0x1_0000_0000 <= g.x <= 0x1_0000_0000
            } else {
                -0x8000_0000 <= g.x <= 0x7fff_ffff
            }
        }),
    decreases i,
{
    if i > 0 {
        lemma_glyph_box_bounded(extents, i - 1);
    }
}

fn is_unreported(extent: &CharExtent) -> (yes: bool)
    ensures
        yes == unreported(*extent),
{
    extent.x == 0 && extent.y == 0 && extent.width == 0 && extent.height == 0
}

/// Replaces unreported extents; see [`glyph_box`]. `None` when no extent was
/// reported at all.
pub fn synthesize_extents(extents: &[CharExtent]) -> (boxes: Option<Vec<GlyphBox>>)
    ensures
        list_view(boxes) == glyph_boxes(extents@),
        boxes matches Some(all) ==> forall|i: int|
            0 <= i < all@.len() ==> (#[trigger] all@[i]).bounded(),
{
    let mut first: usize = 0;
    while first < extents.len() && is_unreported(&extents[first])
        invariant
            first <= extents.len(),
            forall|j: int| 0 <= j < first ==> unreported(#[trigger] extents@[j]),
            first_reported_index(extents@, 0) == first_reported_index(extents@, first as int),
        decreases extents.len() - first,
    {
        first = first + 1;
    }
    if first >= extents.len() {
        return None;
    }
    assert(any_reported(extents@, extents@.len() as int)) by {
        assert(!unreported(extents@[first as int]));
    }
    let mut boxes: Vec<GlyphBox> = Vec::new();
    let mut i: usize = 0;
    while i < extents.len()
        invariant
            i <= extents.len(),
            first < extents.len(),
            !unreported(extents@[first as int]),
            forall|j: int| 0 <= j < first ==> unreported(#[trigger] extents@[j]),
            first_reported_index(extents@, 0) == first,
            boxes@.len() == i,
            forall|j: int| 0 <= j < i ==> boxes@[j] == #[trigger] glyph_box(extents@, j),
        decreases extents.len() - i,
    {
        let extent: CharExtent = extents[i];
        proof {
            lemma_glyph_box_bounded(extents@, i as int);
            if i > 0 {
                lemma_glyph_box_bounded(extents@, i - 1);
            }
        }
        if !is_unreported(&extent) {
            boxes.push(
                GlyphBox {
                    x: extent.x as i64,
                    y: extent.y as i64,
                    width: extent.width as i64,
                    height: extent.height as i64,
                },
            );
        } else if i < first {
            assert(!any_reported(extents@, i as int));
            let donor: CharExtent = extents[first];
            boxes.push(
                GlyphBox {
                    x: donor.x as i64,
                    y: donor.y as i64,
                    width: 0,
                    height: donor.height as i64,
                },
            );
        } else {
            assert(any_reported(extents@, i as int)) by {
                assert(!unreported(extents@[first as int]));
            }
            let left: GlyphBox = boxes[i - 1];
            assert(left == glyph_box(extents@, i - 1));
            boxes.push(
                GlyphBox { x: left.x + left.width, y: left.y, width: 0, height: left.height },
            );
        }
        i = i + 1;
    }
    assert forall|j: int| 0 <= j < boxes@.len() implies (#[trigger] boxes@[j]).bounded() by {
        lemma_glyph_box_bounded(extents@, j);
        assert(boxes@[j] == glyph_box(extents@, j));
    }
    assert(boxes@ =~= glyph_boxes(extents@)->0);
    Some(boxes)
}

/// Where a run lies, and where each of its characters lies within it.
pub struct RunGeometry {
    pub rect: Rect,
    pub positions: Vec<i64>,
    pub widths: Vec<i64>,
}

/// The contents of a [`RunGeometry`].
#[verifier::ext_equal]
pub struct RunGeometryView {
    pub rect: Rect,
    pub positions: Seq<i64>,
    pub widths: Seq<i64>,
}

impl View for RunGeometry {
    type V = RunGeometryView;

    open spec fn view(&self) -> RunGeometryView {
        RunGeometryView { rect: self.rect, positions: self.positions@, widths: self.widths@ }
    }
}

/// The contents of an optional geometry.
pub open spec fn geometry_view(geometry: Option<RunGeometry>) -> Option<RunGeometryView> {
    match geometry {
        Some(g) => Some(g@),
        None => None,
    }
}

/// The least of a sequence of numbers.
pub open spec fn least(numbers: Seq<int>) -> int
    decreases numbers.len(),
{
    if numbers.len() <= 1 {
        numbers[0]
    } else {
        let before = least(numbers.drop_last());
        if numbers.last() < before {
            numbers.last()
        } else {
            before
        }
    }
}

/// The greatest of a sequence of numbers.
pub open spec fn greatest(numbers: Seq<int>) -> int
    decreases numbers.len(),
{
    if numbers.len() <= 1 {
        numbers[0]
    } else {
        let before = greatest(numbers.drop_last());
        if numbers.last() > before {
            numbers.last()
        } else {
            before
        }
    }
}

/// The smallest rectangle around all of `boxes`.
pub open spec fn union_of(boxes: Seq<GlyphBox>) -> Rect {
    Rect {
        x0: least(boxes.map_values(|g: GlyphBox| g.x as int)) as i64,
        y0: least(boxes.map_values(|g: GlyphBox| g.y as int)) as i64,
        x1: greatest(boxes.map_values(|g: GlyphBox| g.x + g.width)) as i64,
        y1: greatest(boxes.map_values(|g: GlyphBox| g.y + g.height)) as i64,
    }
}

/// The geometry of a run whose characters have `boxes`: the rectangle around
/// them, and each character's left edge and width measured from that
/// rectangle's own. A run without characters is a place for the caret, at the
/// right edge of the character before it.
pub open spec fn geometry_of(boxes: Seq<GlyphBox>, before: Option<GlyphBox>) -> Option<
    RunGeometryView,
> {
    if boxes.len() == 0 {
        match before {
            Some(left) => Some(
                RunGeometryView {
                    rect: Rect {
                        x0: (left.x + left.width) as i64,
                        y0: left.y,
                        x1: (left.x + left.width) as i64,
                        y1: (left.y + left.height) as i64,
                    },
                    positions: Seq::empty(),
                    widths: Seq::empty(),
                },
            ),
            None => None,
        }
    } else {
        Some(
            RunGeometryView {
                rect: union_of(boxes),
                positions: boxes.map_values(|g: GlyphBox| (g.x - union_of(boxes).x0) as i64),
                widths: boxes.map_values(|g: GlyphBox| g.width),
            },
        )
    }
}

/// A run's rectangle with the positions and widths of its characters; see
/// [`geometry_of`].
pub fn run_geometry(boxes: &[GlyphBox], before: Option<GlyphBox>) -> (geometry: Option<RunGeometry>)
    requires
        forall|i: int| 0 <= i < boxes@.len() ==> (#[trigger] boxes@[i]).bounded(),
        before matches Some(left) ==> left.bounded(),
    ensures
        geometry_view(geometry) == geometry_of(boxes@, before),
{
    if boxes.len() == 0 {
        return match before {
            Some(left) => {
                let edge: i64 = left.x + left.width;
                let geometry = RunGeometry {
                    rect: Rect { x0: edge, y0: left.y, x1: edge, y1: left.y + left.height },
                    positions: Vec::new(),
                    widths: Vec::new(),
                };
                assert(geometry@ =~= geometry_of(boxes@, before)->0);
                Some(geometry)
            },
            None => None,
        };
    }
    let ghost xs = boxes@.map_values(|g: GlyphBox| g.x as int);
    let ghost ys = boxes@.map_values(|g: GlyphBox| g.y as int);
    let ghost rights = boxes@.map_values(|g: GlyphBox| g.x + g.width);
    let ghost bottoms = boxes@.map_values(|g: GlyphBox| g.y + g.height);
    let mut x0: i64 = boxes[0].x;
    let mut y0: i64 = boxes[0].y;
    let mut x1: i64 = boxes[0].x + boxes[0].width;
    let mut y1: i64 = boxes[0].y + boxes[0].height;
    let mut i: usize = 1;
    while i < boxes.len()
        invariant
            1 <= i <= boxes.len(),
            forall|j: int| 0 <= j < boxes@.len() ==> (#[trigger] boxes@[j]).bounded(),
            xs == boxes@.map_values(|g: GlyphBox| g.x as int),
            ys == boxes@.map_values(|g: GlyphBox| g.y as int),
            rights == boxes@.map_values(|g: GlyphBox| g.x + g.width),
            bottoms == boxes@.map_values(|g: GlyphBox| g.y + g.height),
            x0 == least(xs.take(i as int)),
            y0 == least(ys.take(i as int)),
            x1 == greatest(rights.take(i as int)),
            y1 == greatest(bottoms.take(i as int)),
            -0x1_0000_0000 <= x0 <= 0x1_0000_0000,
        decreases boxes.len() - i,
    {
        let g: GlyphBox = boxes[i];
        assert(g.bounded());
        assert(xs.take(i + 1).drop_last() =~= xs.take(i as int));
        assert(ys.take(i + 1).drop_last() =~= ys.take(i as int));
        assert(rights.take(i + 1).drop_last() =~= rights.take(i as int));
        assert(bottoms.take(i + 1).drop_last() =~= bottoms.take(i as int));
        if g.x < x0 {
            x0 = g.x;
        }
        if g.y < y0 {
            y0 = g.y;
        }
        if g.x + g.width > x1 {
            x1 = g.x + g.width;
        }
        if g.y + g.height > y1 {
            y1 = g.y + g.height;
        }
        i = i + 1;
    }
    assert(xs.take(i as int) =~= xs);
    assert(ys.take(i as int) =~= ys);
    assert(rights.take(i as int) =~= rights);
    assert(bottoms.take(i as int) =~= bottoms);
    let rect: Rect = Rect { x0, y0, x1, y1 };
    assert(rect == union_of(boxes@));
    let mut positions: Vec<i64> = Vec::new();
    let mut widths: Vec<i64> = Vec::new();
    for k in 0..boxes.len()
        invariant
            forall|j: int| 0 <= j < boxes@.len() ==> (#[trigger] boxes@[j]).bounded(),
            -0x1_0000_0000 <= x0 <= 0x1_0000_0000,
            positions@.len() == k,
            widths@.len() == k,
            forall|j: int| 0 <= j < k ==> positions@[j] == boxes@[j].x - x0,
            forall|j: int| 0 <= j < k ==> widths@[j] == boxes@[j].width,
    {
        assert(boxes@[k as int].bounded());
        positions.push(boxes[k].x - x0);
        widths.push(boxes[k].width);
    }
    let geometry = RunGeometry { rect, positions, widths };
    assert(geometry@ =~= geometry_of(boxes@, before)->0);
    Some(geometry)
}

// ---------------------------------------------------------------- runs

/// One text run: its node id and how many characters it holds.
#[derive(Debug, Clone, Copy, PartialEq, Eq, Structural)]
pub struct TextRunLayout {
    pub id: NodeId,
    pub chars: usize,
}

/// The boxes of a text's characters, where there is one for each.
pub open spec fn boxes_for(text: Seq<char>, extents: Option<Seq<CharExtent>>) -> Option<
    Seq<GlyphBox>,
> {
    match extents {
        Some(all) => if all.len() == text.len() {
            glyph_boxes(all)
        } else {
            None
        },
        None => None,
    }
}

/// The geometry of run `i` of a text. A text without characters keeps a place
/// for its caret at the left edge of its container.
pub open spec fn geometry_of_run(
    text: Seq<char>,
    i: int,
    extents: Option<Seq<CharExtent>>,
    container: Option<CharExtent>,
) -> Option<RunGeometryView> {
    let start = start_of(lines(text), i) as int;
    match boxes_for(text, extents) {
        Some(boxes) => geometry_of(
            boxes.subrange(start, start + lines(text)[i].len()),
            if start > 0 {
                Some(boxes[start - 1])
            } else {
                None
            },
        ),
        None => match container {
            Some(anchor) => if text.len() == 0 {
                Some(
                    RunGeometryView {
                        rect: Rect {
                            x0: anchor.x as i64,
                            y0: anchor.y as i64,
                            x1: anchor.x as i64,
                            y1: (anchor.y + anchor.height) as i64,
                        },
                        positions: Seq::empty(),
                        widths: Seq::empty(),
                    },
                )
            } else {
                None
            },
            None => None,
        },
    }
}

/// The node of one run.
pub open spec fn run_node(run: Seq<char>, geometry: Option<RunGeometryView>) -> NodeView {
    let bare = bare_node(Role::TextRun);
    NodeView {
        props: Properties {
            bounds: match geometry {
                Some(g) => Some(g.rect),
                None => None,
            },
            text_direction: match geometry {
                Some(_) => Some(TextDirection::LeftToRight),
                None => None,
            },
            ..bare.props
        },
        value: Some(run),
        character_lengths: utf8_widths(run),
        word_starts: as_bytes_or_none(word_begins_in(run)),
        character_positions: match geometry {
            Some(g) => Some(g.positions),
            None => None,
        },
        character_widths: match geometry {
            Some(g) => Some(g.widths),
            None => None,
        },
        ..bare
    }
}

/// The nodes of all the runs of a text, under the ids that `ids` has for them.
pub open spec fn run_nodes(
    ids: Map<Seq<char>, NodeId>,
    parent: Seq<char>,
    text: Seq<char>,
    extents: Option<Seq<CharExtent>>,
    container: Option<CharExtent>,
) -> Seq<(NodeId, NodeView)> {
    Seq::new(
        lines(text).len(),
        |i: int|
            (
                ids[path_of_run(parent, i as nat)],
                run_node(lines(text)[i], geometry_of_run(text, i, extents, container)),
            ),
    )
}

/// The layout of the runs of a text.
pub open spec fn run_layout(
    ids: Map<Seq<char>, NodeId>,
    parent: Seq<char>,
    text: Seq<char>,
) -> Seq<TextRunLayout> {
    Seq::new(
        lines(text).len(),
        |i: int|
            TextRunLayout {
                id: ids[path_of_run(parent, i as nat)],
                chars: lines(text)[i].len() as usize,
            },
    )
}

/// The ids after the runs of a text under `parent` have been given theirs.
pub open spec fn with_runs(
    ids: Map<Seq<char>, NodeId>,
    parent: Seq<char>,
    text: Seq<char>,
) -> Map<Seq<char>, NodeId> {
    with_paths(ids, paths_of_runs(parent, lines(text).len()))
}

fn build_run(run: String, geometry: Option<RunGeometry>) -> (node: Node)
    ensures
        node@ == run_node(run@, geometry_view(geometry)),
{
    let mut node = Node::new(Role::TextRun);
    node.character_lengths = character_lengths(run.as_str());
    node.word_starts = word_starts(run.as_str());
    node.value = Some(run);
    match geometry {
        Some(g) => {
            node.props.bounds = Some(g.rect);
            node.props.text_direction = Some(TextDirection::LeftToRight);
            node.character_positions = Some(g.positions);
            node.character_widths = Some(g.widths);
        },
        None => {},
    }
    node
}

/// The boxes of a text's characters, where there is one for each.
fn usable_boxes(extents: Option<&[CharExtent]>, count: usize) -> (boxes: Option<Vec<GlyphBox>>)
    ensures
        list_view(boxes) == (match extents {
            Some(all) => if all@.len() == count {
                glyph_boxes(all@)
            } else {
                None
            },
            None => None,
        }),
        boxes matches Some(all) ==> forall|i: int|
            0 <= i < all@.len() ==> (#[trigger] all@[i]).bounded(),
{
    match extents {
        Some(all) => if all.len() == count {
            synthesize_extents(all)
        } else {
            None
        },
        None => None,
    }
}

/// The contents of an optional slice.
pub open spec fn slice_view(extents: Option<&[CharExtent]>) -> Option<Seq<CharExtent>> {
    match extents {
        Some(all) => Some(all@),
        None => None,
    }
}

/// Whether `entry` is the node of run `i` under the id that `ids` has for it.
spec fn run_built(
    ids: Map<Seq<char>, NodeId>,
    parent: Seq<char>,
    text: Seq<char>,
    extents: Option<Seq<CharExtent>>,
    container: Option<CharExtent>,
    i: int,
    entry: (NodeId, Node),
) -> bool {
    &&& ids.contains_key(path_of_run(parent, i as nat))
    &&& entry.0 == ids[path_of_run(parent, i as nat)]
    &&& entry.1@ == run_node(lines(text)[i], geometry_of_run(text, i, extents, container))
}

/// Builds the text-run nodes for `text` and their layout. Each run carries its
/// text, the length of each character, and where words begin; where extents are
/// known for all the characters, also its bounds and theirs.
pub fn build_text_runs(
    parent_path: &str,
    text: &str,
    extents: Option<&[CharExtent]>,
    container_bounds: Option<CharExtent>,
    ids: &mut NodeIdMap,
) -> (built: (Vec<(NodeId, Node)>, Vec<TextRunLayout>))
    requires
        old(ids).wf(),
    ensures
        final(ids).wf(),
        final(ids)@ == with_runs(old(ids)@, parent_path@, text@),
        extends(final(ids)@, old(ids)@),
        node_views(built.0@) == run_nodes(
            final(ids)@,
            parent_path@,
            text@,
            slice_view(extents),
            container_bounds,
        ),
        built.1@ == run_layout(final(ids)@, parent_path@, text@),
{
    let runs: Vec<String> = split_runs(text);
    let count: usize = text.unicode_len();
    let boxes: Option<Vec<GlyphBox>> = usable_boxes(extents, count);
    let ghost given = slice_view(extents);
    assert(list_view(boxes) == boxes_for(text@, given));
    let mut nodes: Vec<(NodeId, Node)> = Vec::new();
    let mut layout: Vec<TextRunLayout> = Vec::new();
    let mut cursor: usize = 0;
    let mut index: usize = 0;
    let ghost parent = parent_path@;
    let ghost paths = paths_of_runs(parent, runs@.len());
    let ghost start_ids = old(ids)@;
    proof {
        law_lines_concatenate_to_the_text(text@);
        assert(paths.take(0) =~= Seq::<Seq<char>>::empty());
    }
    while index < runs.len()
        invariant
            index <= runs.len(),
            views(runs@) == lines(text@),
            joined(lines(text@)) == text@,
            count == text@.len(),
            list_view(boxes) == boxes_for(text@, given),
            boxes matches Some(all) ==> forall|i: int|
                0 <= i < all@.len() ==> (#[trigger] all@[i]).bounded(),
            parent == parent_path@,
            paths == paths_of_runs(parent, runs@.len()),
            cursor == start_of(lines(text@), index as int),
            cursor <= count,
            ids.wf(),
            ids@ == with_paths(start_ids, paths.take(index as int)),
            nodes@.len() == index,
            layout@.len() == index,
            forall|j: int|
                0 <= j < index ==> run_built(
                    ids@,
                    parent,
                    text@,
                    given,
                    container_bounds,
                    j,
                    #[trigger] nodes@[j],
                ),
            forall|j: int|
                0 <= j < index ==> (#[trigger] layout@[j]) == (TextRunLayout {
                    id: ids@[path_of_run(parent, j as nat)],
                    chars: lines(text@)[j].len() as usize,
                }),
        decreases runs.len() - index,
    {
        let ghost before = ids@;
        let id: NodeId = ids.id_for(run_path(parent_path, index).as_str());
        proof {
            assert(paths.take(index + 1) =~= paths.take(index as int).push(
                path_of_run(parent, index as nat),
            ));
            lemma_with_paths_push(
                start_ids,
                paths.take(index as int),
                path_of_run(parent, index as nat),
            );
            assert(extends(ids@, before));
            lemma_start_of_next(lines(text@), index as int);
            assert(lines(text@)[index as int] == runs@[index as int]@);
        }
        let run: String = runs[index].clone();
        let chars: usize = run.as_str().unicode_len();
        let geometry: Option<RunGeometry> = match &boxes {
            Some(all) => {
                let left: Option<GlyphBox> = if cursor > 0 {
                    Some(all[cursor - 1])
                } else {
                    None
                };
                run_geometry(&all.as_slice()[cursor..cursor + chars], left)
            },
            None => match container_bounds {
                Some(anchor) => if count == 0 {
                    let edge: i64 = anchor.x as i64;
                    Some(
                        RunGeometry {
                            rect: Rect {
                                x0: edge,
                                y0: anchor.y as i64,
                                x1: edge,
                                y1: anchor.y as i64 + anchor.height as i64,
                            },
                            positions: Vec::new(),
                            widths: Vec::new(),
                        },
                    )
                } else {
                    None
                },
                None => None,
            },
        };
        assert(geometry_view(geometry) == geometry_of_run(text@, index as int, given, container_bounds));
        let node: Node = build_run(run, geometry);
        let ghost (nodes_before, layout_before) = (nodes@, layout@);
        nodes.push((id, node));
        layout.push(TextRunLayout { id, chars });
        cursor = cursor + chars;
        index = index + 1;
        proof {
            assert forall|j: int| 0 <= j < index implies run_built(
                ids@,
                parent,
                text@,
                given,
                container_bounds,
                j,
                #[trigger] nodes@[j],
            ) by {
                if j < index - 1 {
                    assert(nodes@[j] == nodes_before[j]);
                    assert(before.contains_key(path_of_run(parent, j as nat)));
                }
            }
            assert forall|j: int| 0 <= j < index implies (#[trigger] layout@[j]) == (
            TextRunLayout {
                id: ids@[path_of_run(parent, j as nat)],
                chars: lines(text@)[j].len() as usize,
            }) by {
                if j < index - 1 {
                    assert(layout@[j] == layout_before[j]);
                    assert(nodes@[j] == nodes_before[j]);
                    assert(before.contains_key(path_of_run(parent, j as nat)));
                }
            }
        }
    }
    proof {
        assert(paths.take(index as int) =~= paths);
        lemma_with_paths_extends(start_ids, paths);
        assert(node_views(nodes@) =~= run_nodes(ids@, parent, text@, given, container_bounds));
        assert(layout@ =~= run_layout(ids@, parent, text@));
    }
    (nodes, layout)
}

// ---------------------------------------------------------------- positions

/// How many characters the runs of a layout hold.
pub open spec fn layout_chars(layout: Seq<TextRunLayout>) -> nat
    decreases layout.len(),
{
    if layout.len() == 0 {
        0
    } else {
        layout[0].chars as nat + layout_chars(layout.drop_first())
    }
}

/// The place of the `offset`-th character. A place on the boundary of two runs
/// belongs to the later one; a place past the end is the end of the last run.
pub open spec fn position_of(layout: Seq<TextRunLayout>, offset: nat) -> TextPosition
    decreases layout.len(),
{
    if layout.len() == 0 {
        TextPosition { node: NodeId(0), character_index: 0 }
    } else if offset < layout[0].chars {
        TextPosition { node: layout[0].id, character_index: offset as usize }
    } else if layout.len() == 1 {
        TextPosition { node: layout[0].id, character_index: layout[0].chars }
    } else {
        position_of(layout.drop_first(), (offset - layout[0].chars) as nat)
    }
}

/// Which character of the whole text a position means, if its run is one of the
/// layout's.
pub open spec fn offset_of(layout: Seq<TextRunLayout>, position: TextPosition) -> Option<nat>
    decreases layout.len(),
{
    if layout.len() == 0 {
        None
    } else if layout[0].id == position.node {
        Some(position.character_index as nat)
    } else {
        match offset_of(layout.drop_first(), position) {
            Some(rest) => Some(layout[0].chars as nat + rest),
            None => None,
        }
    }
}

/// No two runs of a layout share an id.
pub open spec fn distinct_runs(layout: Seq<TextRunLayout>) -> bool {
    forall|i: int, j: int|
        0 <= i < j < layout.len() ==> (#[trigger] layout[i]).id != (#[trigger] layout[j]).id
}

pub proof fn lemma_position_in_layout(layout: Seq<TextRunLayout>, offset: nat)
    requires
        layout.len() > 0,
    ensures
        exists|i: int|
            0 <= i < layout.len() && (#[trigger] layout[i]).id == position_of(layout, offset).node,
    decreases layout.len(),
{
    if offset < layout[0].chars || layout.len() == 1 {
        assert(layout[0].id == position_of(layout, offset).node);
    } else {
        let rest = layout.drop_first();
        lemma_position_in_layout(rest, (offset - layout[0].chars) as nat);
        let i = choose|i: int|
            0 <= i < rest.len() && (#[trigger] rest[i]).id == position_of(
                rest,
                (offset - layout[0].chars) as nat,
            ).node;
        assert(layout[i + 1].id == position_of(layout, offset).node);
    }
}

/// Offsets and positions are inverse: every offset is given back by the position
/// it maps to, run boundaries and the end of the text included; an offset past the
/// end comes back as the end.
pub proof fn law_offset_of_position(layout: Seq<TextRunLayout>, offset: nat)
    requires
        layout.len() > 0,
        distinct_runs(layout),
    ensures
        offset_of(layout, position_of(layout, offset)) == Some(
            if offset <= layout_chars(layout) {
                offset
            } else {
                layout_chars(layout)
            },
        ),
    decreases layout.len(),
{
    let rest = layout.drop_first();
    if offset < layout[0].chars || layout.len() == 1 {
        if layout.len() == 1 {
            assert(layout_chars(rest) == 0);
        }
    } else {
        let inner = (offset - layout[0].chars) as nat;
        assert forall|i: int, j: int| 0 <= i < j < rest.len() implies (#[trigger] rest[i]).id != (
        #[trigger] rest[j]).id by {
            assert(rest[i] == layout[i + 1] && rest[j] == layout[j + 1]);
        }
        law_offset_of_position(rest, inner);
        lemma_position_in_layout(rest, inner);
        let i = choose|i: int|
            0 <= i < rest.len() && (#[trigger] rest[i]).id == position_of(rest, inner).node;
        assert(layout[0].id != layout[i + 1].id);
    }
}

/// Exactly the positions in a run of the layout have an offset.
pub proof fn law_only_runs_have_offsets(layout: Seq<TextRunLayout>, position: TextPosition)
    ensures
        offset_of(layout, position) is Some <==> exists|i: int|
            0 <= i < layout.len() && (#[trigger] layout[i]).id == position.node,
    decreases layout.len(),
{
    if layout.len() > 0 && layout[0].id != position.node {
        let rest = layout.drop_first();
        law_only_runs_have_offsets(rest, position);
        if offset_of(rest, position) is Some {
            let i = choose|i: int|
                0 <= i < rest.len() && (#[trigger] rest[i]).id == position.node;
            assert(layout[i + 1].id == position.node);
        }
        if exists|i: int| 0 <= i < layout.len() && (#[trigger] layout[i]).id == position.node {
            let i = choose|i: int|
                0 <= i < layout.len() && (#[trigger] layout[i]).id == position.node;
            assert(rest[i - 1].id == position.node);
        }
    }
}

/// Maps a character offset to a position; see [`position_of`].
pub fn text_position(layout: &[TextRunLayout], offset: usize) -> (position: TextPosition)
    ensures
        position == position_of(layout@, offset as nat),
{
    if layout.len() == 0 {
        return TextPosition { node: NodeId(0), character_index: 0 };
    }
    let mut remaining: usize = offset;
    let mut i: usize = 0;
    assert(layout@.skip(0) =~= layout@);
    while i < layout.len()
        invariant
            i <= layout.len(),
            layout.len() > 0,
            i < layout.len() ==> position_of(layout@, offset as nat) == position_of(
                layout@.skip(i as int),
                remaining as nat,
            ),
            i == layout.len() ==> position_of(layout@, offset as nat) == (TextPosition {
                node: layout@.last().id,
                character_index: layout@.last().chars,
            }),
        decreases layout.len() - i,
    {
        let ghost rest = layout@.skip(i as int);
        assert(rest[0] == layout@[i as int]);
        assert(rest.drop_first() =~= layout@.skip(i + 1));
        if remaining < layout[i].chars {
            return TextPosition { node: layout[i].id, character_index: remaining };
        }
        remaining = remaining - layout[i].chars;
        i = i + 1;
    }
    let last: TextRunLayout = layout[layout.len() - 1];
    TextPosition { node: last.id, character_index: last.chars }
}

/// Maps a position back to a character offset; see [`offset_of`].
pub fn text_offset(layout: &[TextRunLayout], position: &TextPosition) -> (offset: Option<usize>)
    requires
        offset_of(layout@, *position) matches Some(n) ==> n <= usize::MAX,
    ensures
        match offset {
            Some(n) => offset_of(layout@, *position) == Some(n as nat),
            None => offset_of(layout@, *position) is None,
        },
{
    checked_text_offset(layout, position)
}

/// The offset of a position, where it has one that can be counted: `None` if no
/// run has its node, or if the offset is beyond any count.
pub fn checked_text_offset(layout: &[TextRunLayout], position: &TextPosition) -> (offset: Option<
    usize,
>)
    ensures
        offset == (match offset_of(layout@, *position) {
            Some(n) if n <= usize::MAX => Some(n as usize),
            _ => None,
        }),
{
    let mut start: usize = 0;
    let mut i: usize = 0;
    assert(layout@.skip(0) =~= layout@);
    while i < layout.len()
        invariant
            i <= layout.len(),
            offset_of(layout@, *position) == (match offset_of(layout@.skip(i as int), *position) {
                Some(rest) => Some((start + rest) as nat),
                None => None,
            }),
        decreases layout.len() - i,
    {
        let ghost rest = layout@.skip(i as int);
        assert(rest[0] == layout@[i as int]);
        assert(rest.drop_first() =~= layout@.skip(i + 1));
        if layout[i].id == position.node {
            return start.checked_add(position.character_index);
        }
        match start.checked_add(layout[i].chars) {
            Some(next) => {
                start = next;
            },
            None => {
                return None;
            },
        }
        i = i + 1;
    }
    None
}

/// The two ends of a text's selection as offsets: where it began and where the
/// caret is. A caret alone is a selection of nothing; with a real selection the
/// caret tells which end it is at.
pub open spec fn selection_ends(caret: Option<usize>, selection: Option<(usize, usize)>) -> Option<
    (usize, usize),
> {
    match selection {
        Some((start, end)) if start != end => if caret == Some(start) {
            Some((end, start))
        } else {
            Some((start, end))
        },
        _ => match caret {
            Some(at) => Some((at, at)),
            None => None,
        },
    }
}

/// The selection a node is emitted with.
pub open spec fn selection_of(
    caret: Option<usize>,
    selection: Option<(usize, usize)>,
    layout: Seq<TextRunLayout>,
) -> Option<TextSelection> {
    match selection_ends(caret, selection) {
        Some((anchor, focus)) => Some(
            TextSelection {
                anchor: position_of(layout, anchor as nat),
                focus: position_of(layout, focus as nat),
            },
        ),
        None => None,
    }
}

/// Builds the selection of a text node from its caret and selection; see
/// [`selection_ends`]. `None` when there is neither.
pub fn text_selection(state: &TextState, layout: &[TextRunLayout]) -> (selection: Option<
    TextSelection,
>)
    ensures
        selection == selection_of(state.caret, state.selection, layout@),
{
    let ends: Option<(usize, usize)> = match state.selection {
        Some((start, end)) if start != end => match state.caret {
            Some(caret) if caret == start => Some((end, start)),
            _ => Some((start, end)),
        },
        _ => match state.caret {
            Some(at) => Some((at, at)),
            None => None,
        },
    };
    match ends {
        Some((anchor, focus)) => Some(
            TextSelection {
                anchor: text_position(layout, anchor),
                focus: text_position(layout, focus),
            },
        ),
        None => None,
    }
}

// ---------------------------------------------------------------- what runs are

/// The least of some numbers is one of them, and none is below it.
pub proof fn lemma_least(numbers: Seq<int>, i: int)
    requires
        0 <= i < numbers.len(),
    ensures
        least(numbers) <= numbers[i],
        numbers.contains(least(numbers)),
    decreases numbers.len(),
{
    if numbers.len() == 1 {
        assert(numbers[0] == least(numbers));
    } else {
        let init = numbers.drop_last();
        lemma_least(init, if i < init.len() { i } else { 0 });
        let j = init.index_of(least(init));
        assert(numbers[j] == least(init));
        assert(numbers[numbers.len() - 1] == numbers.last());
        if i < init.len() {
            assert(numbers[i] == init[i]);
        }
    }
}

/// The greatest of some numbers is one of them, and none is above it.
pub proof fn lemma_greatest(numbers: Seq<int>, i: int)
    requires
        0 <= i < numbers.len(),
    ensures
        numbers[i] <= greatest(numbers),
        numbers.contains(greatest(numbers)),
    decreases numbers.len(),
{
    if numbers.len() == 1 {
        assert(numbers[0] == greatest(numbers));
    } else {
        let init = numbers.drop_last();
        lemma_greatest(init, if i < init.len() { i } else { 0 });
        let j = init.index_of(greatest(init));
        assert(numbers[j] == greatest(init));
        assert(numbers[numbers.len() - 1] == numbers.last());
        if i < init.len() {
            assert(numbers[i] == init[i]);
        }
    }
}

/// A run's rectangle encloses every character of the run, and each of its sides is
/// that of some character. The places and widths of the characters are their own,
/// measured from the rectangle's left edge.
pub proof fn law_a_run_encloses_its_characters(
    boxes: Seq<GlyphBox>,
    before: Option<GlyphBox>,
    i: int,
)
    requires
        0 <= i < boxes.len(),
        forall|j: int| 0 <= j < boxes.len() ==> (#[trigger] boxes[j]).bounded(),
    ensures
        geometry_of(boxes, before) matches Some(g) && {
            &&& g.rect.x0 <= boxes[i].x
            &&& g.rect.y0 <= boxes[i].y
            &&& boxes[i].x + boxes[i].width <= g.rect.x1
            &&& boxes[i].y + boxes[i].height <= g.rect.y1
            &&& exists|j: int| 0 <= j < boxes.len() && (#[trigger] boxes[j]).x == g.rect.x0
            &&& exists|j: int| 0 <= j < boxes.len() && (#[trigger] boxes[j]).y == g.rect.y0
            &&& exists|j: int|
                0 <= j < boxes.len() && (#[trigger] boxes[j]).x + boxes[j].width == g.rect.x1
            &&& exists|j: int|
                0 <= j < boxes.len() && (#[trigger] boxes[j]).y + boxes[j].height == g.rect.y1
            &&& g.positions.len() == boxes.len()
            &&& g.widths.len() == boxes.len()
            &&& g.rect.x0 + g.positions[i] == boxes[i].x
            &&& g.widths[i] == boxes[i].width
        },
{
    let xs = boxes.map_values(|g: GlyphBox| g.x as int);
    let ys = boxes.map_values(|g: GlyphBox| g.y as int);
    let rights = boxes.map_values(|g: GlyphBox| g.x + g.width);
    let bottoms = boxes.map_values(|g: GlyphBox| g.y + g.height);
    lemma_least(xs, i);
    lemma_least(ys, i);
    lemma_greatest(rights, i);
    lemma_greatest(bottoms, i);
    let (a, b) = (xs.index_of(least(xs)), ys.index_of(least(ys)));
    let (c, d) = (rights.index_of(greatest(rights)), bottoms.index_of(greatest(bottoms)));
    assert(boxes[i].bounded() && boxes[a].bounded() && boxes[b].bounded());
    assert(boxes[c].bounded() && boxes[d].bounded());
    assert(xs[i] == boxes[i].x && ys[i] == boxes[i].y);
    assert(rights[i] == boxes[i].x + boxes[i].width);
    assert(bottoms[i] == boxes[i].y + boxes[i].height);
    assert(xs[a] == boxes[a].x && ys[b] == boxes[b].y);
    assert(rights[c] == boxes[c].x + boxes[c].width);
    assert(bottoms[d] == boxes[d].y + boxes[d].height);
}

/// A run without characters is a place for the caret: it has no width and stands at
/// the right edge of the character before it, as high as that one.
pub proof fn law_an_empty_run_stands_behind_the_character_before(before: Option<GlyphBox>)
    requires
        before matches Some(left) ==> left.bounded(),
    ensures
        ({
            let geometry = geometry_of(Seq::empty(), before);
            &&& geometry is Some <==> before is Some
            &&& before matches Some(left) ==> {
                let g = geometry->0;
                &&& g.rect.x0 == g.rect.x1 == left.x + left.width
                &&& g.rect.y0 == left.y
                &&& g.rect.y1 - g.rect.y0 == left.height
                &&& g.positions.len() == 0
                &&& g.widths.len() == 0
            }
        }),
{
}

/// Every character has a box as soon as one of them was reported. A reported one has
/// its own. An unreported one has no width: it stands at the right edge of the one
/// before it, and those before the first reported stand at that one's left edge.
pub proof fn law_reported_characters_keep_their_boxes(extents: Seq<CharExtent>, i: int)
    requires
        0 <= i < extents.len(),
    ensures
        ({
            let (e, boxes) = (extents[i], glyph_boxes(extents)->0);
            let nothing = |c: CharExtent| c.x == 0 && c.y == 0 && c.width == 0 && c.height == 0;
            &&& glyph_boxes(extents) is Some <==> exists|j: int|
                0 <= j < extents.len() && !nothing(#[trigger] extents[j])
            &&& glyph_boxes(extents) is Some ==> {
                &&& boxes.len() == extents.len()
                &&& !nothing(e) ==> boxes[i].x == e.x && boxes[i].y == e.y && boxes[i].width
                    == e.width && boxes[i].height == e.height
                &&& nothing(e) ==> boxes[i].width == 0
                &&& nothing(e) && i > 0 && (exists|j: int|
                    0 <= j < i && !nothing(#[trigger] extents[j])) ==> boxes[i].x == boxes[i
                    - 1].x + boxes[i - 1].width && boxes[i].y == boxes[i - 1].y && boxes[i].height
                    == boxes[i - 1].height
                &&& forall|k: int|
                    i < k < extents.len() && !nothing(#[trigger] extents[k]) && (forall|j: int|
                        0 <= j < k ==> nothing(#[trigger] extents[j])) ==> boxes[i].x
                        == extents[k].x && boxes[i].y == extents[k].y && boxes[i].height
                        == extents[k].height
            }
        }),
{
    let nothing = |c: CharExtent| c.x == 0 && c.y == 0 && c.width == 0 && c.height == 0;
    assert forall|c: CharExtent| #[trigger] nothing(c) == unreported(c) by {}
    assert forall|n: int| any_reported(extents, n) == (exists|j: int|
        0 <= j < n && !nothing(#[trigger] extents[j])) by {
        if any_reported(extents, n) {
            let j = choose|j: int| 0 <= j < n && !unreported(#[trigger] extents[j]);
            assert(!nothing(extents[j]));
        }
    }
    if glyph_boxes(extents) is Some {
        let boxes = glyph_boxes(extents)->0;
        assert(boxes[i] == glyph_box(extents, i));
        if i > 0 {
            assert(boxes[i - 1] == glyph_box(extents, i - 1));
            lemma_glyph_box_bounded(extents, i - 1);
        }
        assert forall|k: int|
            i < k < extents.len() && !nothing(#[trigger] extents[k]) && (forall|j: int|
                0 <= j < k ==> nothing(#[trigger] extents[j])) implies boxes[i].x == extents[k].x
            && boxes[i].y == extents[k].y && boxes[i].height == extents[k].height by {
            assert(nothing(extents[i]));
            lemma_first_reported(extents, 0, k);
            assert(!any_reported(extents, i));
        }
    }
}

proof fn lemma_first_reported(extents: Seq<CharExtent>, from: int, k: int)
    requires
        0 <= from <= k < extents.len(),
        !unreported(extents[k]),
        forall|j: int| 0 <= j < k ==> unreported(#[trigger] extents[j]),
    ensures
        first_reported_index(extents, from) == k,
    decreases k - from,
{
    if from < k {
        assert(unreported(extents[from]));
        lemma_first_reported(extents, from + 1, k);
    }
}

/// A text whose characters have extents is laid out by them: each run is drawn around
/// its own characters, places and widths included.
pub proof fn law_runs_are_drawn_around_their_characters(
    ids: Map<Seq<char>, NodeId>,
    parent: Seq<char>,
    text: Seq<char>,
    extents: Seq<CharExtent>,
    container: Option<CharExtent>,
    i: int,
    j: int,
)
    requires
        extents.len() == text.len(),
        glyph_boxes(extents) is Some,
        0 <= i < lines(text).len(),
        0 <= j < lines(text)[i].len(),
    ensures
        ({
            let node = run_nodes(ids, parent, text, Some(extents), container)[i].1;
            let at = joined(lines(text).take(i)).len() + j;
            let own = glyph_boxes(extents)->0[at];
            &&& at < text.len()
            &&& node.props.bounds matches Some(rect) && {
                &&& rect.x0 <= own.x
                &&& rect.y0 <= own.y
                &&& own.x + own.width <= rect.x1
                &&& own.y + own.height <= rect.y1
                &&& node.character_positions matches Some(places) && places.len()
                    == lines(text)[i].len() && rect.x0 + places[j] == own.x
            }
            &&& node.character_widths matches Some(widths) && widths.len()
                == lines(text)[i].len() && widths[j] == own.width
            &&& node.props.text_direction == Some(TextDirection::LeftToRight)
        }),
{
    let boxes = glyph_boxes(extents)->0;
    let start = start_of(lines(text), i) as int;
    let len = lines(text)[i].len() as int;
    lemma_run_within(text, i);
    let own = boxes.subrange(start, start + len);
    assert forall|k: int| 0 <= k < own.len() implies (#[trigger] own[k]).bounded() by {
        lemma_glyph_box_bounded(extents, start + k);
        assert(own[k] == glyph_box(extents, start + k));
    }
    let before = if start > 0 {
        Some(boxes[start - 1])
    } else {
        None
    };
    law_a_run_encloses_its_characters(own, before, j);
    assert(own[j] == boxes[start + j]);
}

proof fn lemma_run_within(text: Seq<char>, i: int)
    requires
        0 <= i < lines(text).len(),
    ensures
        start_of(lines(text), i) + lines(text)[i].len() <= text.len(),
{
    law_lines_concatenate_to_the_text(text);
    lemma_start_of_next(lines(text), i);
}

/// A text without extents for all its characters has no geometry; where it is empty,
/// it keeps a place for the caret at the left edge of its container.
pub proof fn law_no_geometry_is_made_up(
    ids: Map<Seq<char>, NodeId>,
    parent: Seq<char>,
    text: Seq<char>,
    extents: Option<Seq<CharExtent>>,
    container: Option<CharExtent>,
    i: int,
)
    requires
        extents is None || extents->0.len() != text.len() || glyph_boxes(extents->0) is None,
        0 <= i < lines(text).len(),
    ensures
        ({
            let node = run_nodes(ids, parent, text, extents, container)[i].1;
            &&& node.props.bounds is Some <==> text.len() == 0 && container is Some
            &&& node.character_positions is Some <==> node.props.bounds is Some
            &&& node.character_widths is Some <==> node.props.bounds is Some
            &&& node.props.text_direction is Some <==> node.props.bounds is Some
            &&& node.props.bounds matches Some(rect) ==> rect.x0 == rect.x1 == container->0.x
                && rect.y0 == container->0.y && rect.y1 == container->0.y + container->0.height
                && node.character_positions == Some(Seq::<i64>::empty())
        }),
{
}

/// A run's node holds its line, tells the width of each of its characters, and names
/// nothing below it.
pub proof fn law_a_run_holds_its_line(
    ids: Map<Seq<char>, NodeId>,
    parent: Seq<char>,
    text: Seq<char>,
    extents: Option<Seq<CharExtent>>,
    container: Option<CharExtent>,
    i: int,
)
    requires
        0 <= i < lines(text).len(),
    ensures
        ({
            let runs = run_nodes(ids, parent, text, extents, container);
            let (id, node) = runs[i];
            &&& runs.len() == lines(text).len()
            &&& run_layout(ids, parent, text).len() == runs.len()
            &&& run_layout(ids, parent, text)[i].id == id
            &&& text.len() <= usize::MAX ==> run_layout(ids, parent, text)[i].chars
                == lines(text)[i].len()
            &&& id == ids[parent + "#run"@ + numeral(i as nat)]
            &&& node.props.role == Role::TextRun
            &&& node.value == Some(lines(text)[i])
            &&& node.label is None
            &&& node.children.len() == 0
            &&& node.character_lengths.len() == lines(text)[i].len()
            &&& forall|j: int|
                0 <= j < lines(text)[i].len() ==> (#[trigger] node.character_lengths[j])
                    == vstd::utf8::encode_utf8(seq![lines(text)[i][j]]).len()
        }),
{
    let line = lines(text)[i];
    let node = run_nodes(ids, parent, text, extents, container)[i].1;
    lemma_run_within(text, i);
    assert forall|j: int| 0 <= j < line.len() implies (#[trigger] node.character_lengths[j])
        == vstd::utf8::encode_utf8(seq![line[j]]).len() by {
        let one = seq![line[j]];
        crate::strings::law_utf8_widths_sum_to_byte_length(one);
        let widths = utf8_widths(one);
        assert(widths.len() == 1);
        assert(widths.drop_first().len() == 0);
        assert(crate::strings::byte_sum(widths.drop_first()) == 0);
    }
}

/// The words of a run begin at its start and wherever something follows white space;
/// where one begins is told in order, or not at all if it does not fit a byte.
pub proof fn law_words_begin_after_white_space(run: Seq<char>, i: int, j: int)
    ensures
        word_begins_in(run).contains(i) <==> 0 <= i < run.len() && (i == 0 || white_space(
            run[i - 1],
        ) && !white_space(run[i])),
        0 <= i < j < word_begins_in(run).len() ==> word_begins_in(run)[i] < word_begins_in(run)[j],
        run_node(run, None).word_starts.len() == 0 || run_node(run, None).word_starts.len()
            == word_begins_in(run).len(),
        0 <= i < run_node(run, None).word_starts.len() ==> run_node(run, None).word_starts[i]
            == word_begins_in(run)[i],
        (forall|k: int| 0 <= k < word_begins_in(run).len() ==> #[trigger] word_begins_in(run)[k]
            <= 255) ==> run_node(run, None).word_starts.len() == word_begins_in(run).len(),
    decreases run.len(),
{
    let starts = word_begins_in(run);
    if run.len() > 0 {
        let init = run.drop_last();
        let before = word_begins_in(init);
        let last = run.len() - 1;
        law_words_begin_after_white_space(init, i, j);
        if before.contains(i) {
            let k = before.index_of(i);
            assert(starts[k] == i);
            assert(init[i] == run[i]);
            if i > 0 {
                assert(init[i - 1] == run[i - 1]);
            }
        }
        if starts.contains(i) && i != last {
            let k = starts.index_of(i);
            assert(before[k] == i);
        }
        if word_begins(run, last) {
            assert(starts[before.len() as int] == last);
        }
        if 0 <= i < before.len() {
            assert(before.contains(before[i]));
            law_words_begin_after_white_space(init, before[i], 0);
        }
        if 0 <= i < init.len() {
            assert(init[i] == run[i]);
            if i > 0 {
                assert(init[i - 1] == run[i - 1]);
            }
        }
    }
    let told = run_node(run, None).word_starts;
    if fit_bytes(starts) {
        if 0 <= i < starts.len() {
            assert(starts[i] <= u8::MAX);
            assert(starts.contains(starts[i]));
            lemma_words_within(run, i);
        }
    }
}

proof fn lemma_words_within(run: Seq<char>, i: int)
    requires
        0 <= i < word_begins_in(run).len(),
    ensures
        0 <= word_begins_in(run)[i] < run.len(),
    decreases run.len(),
{
    if run.len() > 0 && i < word_begins_in(run.drop_last()).len() {
        lemma_words_within(run.drop_last(), i);
    }
}

/// An offset lies in the run that holds its character: where two runs meet, in the
/// second, and past the end, at the end of the last.
pub proof fn law_an_offset_lies_in_the_run_of_its_character(
    layout: Seq<TextRunLayout>,
    offset: nat,
) -> (r: int)
    requires
        layout.len() > 0,
    ensures
        0 <= r < layout.len(),
        ({
            let before = layout_chars(layout.take(r));
            let at = position_of(layout, offset);
            &&& at.node == layout[r].id
            &&& offset < layout_chars(layout) ==> before + at.character_index == offset
                && at.character_index < layout[r].chars
            &&& offset >= layout_chars(layout) ==> r == layout.len() - 1 && at.character_index
                == layout[r].chars
        }),
    decreases layout.len(),
{
    let rest = layout.drop_first();
    if offset < layout[0].chars || layout.len() == 1 {
        assert(layout.take(0).len() == 0);
        assert(layout_chars(layout.take(0)) == 0);
        if layout.len() == 1 {
            assert(layout_chars(rest) == 0);
        }
        0
    } else {
        let inner = (offset - layout[0].chars) as nat;
        let s = law_an_offset_lies_in_the_run_of_its_character(rest, inner);
        assert(layout.take(s + 1).drop_first() =~= rest.take(s));
        assert(layout[s + 1] == rest[s]);
        s + 1
    }
}

/// A position's offset counts the characters of the runs before its own.
pub proof fn law_a_position_counts_the_runs_before_it(
    layout: Seq<TextRunLayout>,
    r: int,
    index: usize,
)
    requires
        0 <= r < layout.len(),
        distinct_runs(layout),
    ensures
        offset_of(layout, TextPosition { node: layout[r].id, character_index: index }) == Some(
            layout_chars(layout.take(r)) + index as nat,
        ),
    decreases layout.len(),
{
    let rest = layout.drop_first();
    if r == 0 {
        assert(layout.take(0).len() == 0);
    } else {
        assert forall|i: int, j: int| 0 <= i < j < rest.len() implies (#[trigger] rest[i]).id != (
        #[trigger] rest[j]).id by {
            assert(rest[i] == layout[i + 1] && rest[j] == layout[j + 1]);
        }
        law_a_position_counts_the_runs_before_it(rest, r - 1, index);
        assert(rest[r - 1] == layout[r]);
        assert(layout[0].id != layout[r].id);
        assert(layout.take(r).drop_first() =~= rest.take(r - 1));
    }
}

/// A selection has its two ends where the range has them, and its focus where the
/// caret is, if that is one of them; a caret alone is a selection of nothing, and
/// without either there is none.
pub proof fn law_a_selection_has_the_ends_of_its_range(
    caret: Option<usize>,
    selection: Option<(usize, usize)>,
    layout: Seq<TextRunLayout>,
)
    ensures
        ({
            let chosen = selection_of(caret, selection, layout);
            let at = |offset: usize| position_of(layout, offset as nat);
            &&& selection matches Some((start, end)) ==> start == end || {
                &&& chosen matches Some(s)
                &&& (s.anchor == at(start) && s.focus == at(end)) || (s.anchor == at(end)
                    && s.focus == at(start))
                &&& caret == Some(start) ==> s.focus == at(start)
                &&& caret != Some(start) ==> s.focus == at(end)
            }
            &&& !(selection matches Some((start, end)) && start != end) ==> {
                &&& chosen is Some <==> caret is Some
                &&& caret matches Some(c) ==> chosen->0.anchor == at(c) && chosen->0.focus == at(c)
            }
        }),
{
}

/// No more of a text is mirrored than the cap, and what is mirrored is its beginning.
pub proof fn law_a_long_text_is_cut_at_the_end(text: Seq<char>)
    ensures
        capped(text).is_prefix_of(text),
        capped(text).len() == if text.len() <= 65_536 {
            text.len()
        } else {
            65_536
        },
{
}

} // verus!
