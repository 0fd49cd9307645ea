//! What rectangles decide: which characters begin a visual line, what encloses a
//! run, and whether an element covers anything.
//!
//! Differences and sums of coordinates are measured by the caller; everything
//! here is decided by comparing them.

use crate::ax::text::lemma_utf16_push;
use crate::ax::text::units_of;
use crate::ax::text::MAX_GEOMETRY_CHARS;
use crate::number::lemma_small_numbers;
use crate::number::unit;
use crate::number::Float64;
use crate::number::INFINITE;
use crate::number::ONE;
use crate::strings::chars_of;
use crate::strings::utf16_len;
use crate::strings::utf16_width;
use vstd::prelude::*;

verus! {

/// Whether a rectangle of this size covers anything.
pub fn has_area(width: Float64, height: Float64) -> (covers: bool)
    ensures
        covers == (!width.nan() && width.value() > 0 && !height.nan() && height.value() > 0),
{
    width.is_positive() && height.is_positive()
}

/// The UTF-16 range of each character of a text: where it starts, and how many
/// code units it takes.
pub open spec fn ranges_of(text: Seq<char>) -> Seq<(usize, usize)> {
    Seq::new(
        text.len(),
        |i: int| (units_of(text.take(i)) as usize, utf16_width(text[i]) as usize),
    )
}

/// The ranges to ask a rectangle for: one for each character, or none at all
/// where there is no text, or more of it than is worth asking about.
pub fn geometry_ranges(text: &str) -> (ranges: Option<Vec<(usize, usize)>>)
    ensures
        ranges is Some <==> 0 < text@.len() <= MAX_GEOMETRY_CHARS,
        ranges matches Some(all) ==> all@ == ranges_of(text@),
{
    let chars: Vec<char> = chars_of(text);
    if chars.len() == 0 || chars.len() > MAX_GEOMETRY_CHARS {
        return None;
    }
    let mut all: Vec<(usize, usize)> = Vec::new();
    let mut offset: usize = 0;
    for i in 0..chars.len()
        invariant
            chars@ == text@,
            chars.len() <= MAX_GEOMETRY_CHARS,
            offset == units_of(text@.take(i as int)),
            offset <= 2 * i,
            all@ == ranges_of(text@).take(i as int),
    {
        let units: usize = utf16_len(chars[i]);
        all.push((offset, units));
        proof {
            lemma_utf16_push(text@, i as int);
            assert(all@ =~= ranges_of(text@).take(i + 1));
        }
        offset = offset + units;
    }
    assert(all@ =~= ranges_of(text@));
    Some(all)
}

/// How one character stands to the one before it.
#[derive(Debug, Clone, Copy, PartialEq, Eq, Structural)]
pub struct CharacterRow {
    /// How far its top is from that of the character before it.
    pub rise: Float64,
    /// Half its own height.
    pub half_height: Float64,
}

/// Whether a number exceeds another; nothing is measured against what is not a
/// number.
pub open spec fn exceeds(rise: Float64, tolerance: Float64) -> bool {
    tolerance.nan() || tolerance.value() < rise.value()
}

/// Whether the second of two characters begins a visual line: it stands off from
/// the first by more than a point, and by more than half the height of either.
pub open spec fn begins_line(previous: CharacterRow, current: CharacterRow) -> bool {
    &&& !current.rise.nan()
    &&& current.rise.value() > unit()
    &&& exceeds(current.rise, previous.half_height)
    &&& exceeds(current.rise, current.half_height)
}

/// Whether a character begins a visual line, given the one before it. An
/// ordinary difference of baselines within a line does not.
pub fn starts_new_visual_line(previous: CharacterRow, current: CharacterRow) -> (starts: bool)
    ensures
        starts == begins_line(previous, current),
{
    proof {
        lemma_small_numbers();
    }
    let within: bool = clears(current.rise, previous.half_height) && clears(
        current.rise,
        current.half_height,
    );
    within && Float64(ONE).less(current.rise)
}

fn clears(rise: Float64, tolerance: Float64) -> (clear: bool)
    ensures
        clear == (tolerance.nan() || (!rise.nan() && tolerance.value() < rise.value())),
{
    tolerance.is_nan() || tolerance.less(rise)
}

/// At which characters a text is wrapped.
pub open spec fn wraps_of(rows: Seq<CharacterRow>) -> Seq<bool> {
    Seq::new(rows.len(), |i: int| 0 < i && begins_line(rows[i - 1], rows[i]))
}

/// Finds the characters that begin a visual line.
pub fn wraps(rows: &[CharacterRow]) -> (wraps: Vec<bool>)
    ensures
        wraps@ == wraps_of(rows@),
{
    let mut wraps: Vec<bool> = Vec::new();
    for i in 0..rows.len()
        invariant
            wraps@ == wraps_of(rows@).take(i as int),
    {
        let starts: bool = i > 0 && starts_new_visual_line(rows[i - 1], rows[i]);
        wraps.push(starts);
        assert(wraps@ =~= wraps_of(rows@).take(i + 1));
    }
    assert(wraps@ =~= wraps_of(rows@));
    wraps
}

/// The edges of a rectangle.
#[derive(Debug, Clone, Copy, PartialEq, Eq, Structural)]
pub struct Edges {
    pub left: Float64,
    pub top: Float64,
    pub right: Float64,
    pub bottom: Float64,
}

/// Whether a number is below another.
pub open spec fn below(a: Float64, b: Float64) -> bool {
    !a.nan() && !b.nan() && a.value() < b.value()
}

/// The least of the numbers, passing over what is not one; infinity, where there
/// is none.
pub open spec fn least(numbers: Seq<Float64>) -> Float64
    decreases numbers.len(),
{
    if numbers.len() == 0 {
        Float64(INFINITE)
    } else {
        let before = least(numbers.drop_last());
        if below(numbers.last(), before) {
            numbers.last()
        } else {
            before
        }
    }
}

/// The greatest of the numbers, passing over what is not one; minus infinity,
/// where there is none.
pub open spec fn greatest(numbers: Seq<Float64>) -> Float64
    decreases numbers.len(),
{
    if numbers.len() == 0 {
        Float64(NEGATIVE_INFINITE)
    } else {
        let before = greatest(numbers.drop_last());
        if below(before, numbers.last()) {
            numbers.last()
        } else {
            before
        }
    }
}

/// The encoding of minus infinity.
pub const NEGATIVE_INFINITE: u64 = 0xfff0_0000_0000_0000;

/// What encloses every rectangle.
pub open spec fn enclosing(boxes: Seq<Edges>) -> Edges {
    Edges {
        left: least(boxes.map_values(|b: Edges| b.left)),
        top: least(boxes.map_values(|b: Edges| b.top)),
        right: greatest(boxes.map_values(|b: Edges| b.right)),
        bottom: greatest(boxes.map_values(|b: Edges| b.bottom)),
    }
}

/// Whether an enclosing rectangle is one a caret can be placed in.
pub open spec fn usable(edges: Edges) -> bool {
    edges.left.finite() && edges.top.finite() && edges.left.value() < edges.right.value()
}

/// The rectangle of a run: what encloses the characters it is made of. A run
/// that not every character of has a rectangle gets none at all, and neither does
/// one that covers nothing.
pub open spec fn run_edges_of(boxes: Seq<Edges>, start: int, len: int) -> Option<Edges> {
    if len == 0 || start + len > boxes.len() {
        None
    } else {
        let edges = enclosing(boxes.subrange(start, start + len));
        if usable(edges) {
            Some(edges)
        } else {
            None
        }
    }
}

proof fn lemma_ends()
    ensures
        !Float64(INFINITE).nan(),
        !Float64(NEGATIVE_INFINITE).nan(),
{
    assert(Float64(NEGATIVE_INFINITE).magnitude() == INFINITE);
    assert(Float64(INFINITE).magnitude() == INFINITE);
}

proof fn lemma_are_numbers(numbers: Seq<Float64>)
    ensures
        !least(numbers).nan(),
        !greatest(numbers).nan(),
    decreases numbers.len(),
{
    lemma_ends();
    if numbers.len() > 0 {
        lemma_are_numbers(numbers.drop_last());
    }
}

proof fn lemma_enclosing_push(boxes: Seq<Edges>, more: Edges)
    ensures
        ({
            let before = enclosing(boxes);
            enclosing(boxes.push(more)) == (Edges {
                left: if below(more.left, before.left) { more.left } else { before.left },
                top: if below(more.top, before.top) { more.top } else { before.top },
                right: if below(before.right, more.right) { more.right } else { before.right },
                bottom: if below(before.bottom, more.bottom) {
                    more.bottom
                } else {
                    before.bottom
                },
            })
        }),
{
    let all = boxes.push(more);
    assert(all.map_values(|b: Edges| b.left).drop_last() =~= boxes.map_values(|b: Edges| b.left));
    assert(all.map_values(|b: Edges| b.top).drop_last() =~= boxes.map_values(|b: Edges| b.top));
    assert(all.map_values(|b: Edges| b.right).drop_last() =~= boxes.map_values(|b: Edges| b.right));
    assert(all.map_values(|b: Edges| b.bottom).drop_last() =~= boxes.map_values(
        |b: Edges| b.bottom,
    ));
}

/// Finds the rectangle of a run.
pub fn run_edges(boxes: &[Edges], start: usize, len: usize) -> (edges: Option<Edges>)
    ensures
        edges == run_edges_of(boxes@, start as int, len as int),
{
    if len == 0 || start > boxes.len() || len > boxes.len() - start {
        return None;
    }
    let mut edges: Edges = Edges {
        left: Float64(INFINITE),
        top: Float64(INFINITE),
        right: Float64(NEGATIVE_INFINITE),
        bottom: Float64(NEGATIVE_INFINITE),
    };
    let ghost run = boxes@.subrange(start as int, start + len);
    assert(edges == enclosing(run.take(0)));
    for i in 0..len
        invariant
            start + len <= boxes.len(),
            run == boxes@.subrange(start as int, start + len),
            edges == enclosing(run.take(i as int)),
    {
        let more: Edges = boxes[start + i];
        proof {
            lemma_enclosing_push(run.take(i as int), more);
            assert(run.take(i as int).push(more) =~= run.take(i + 1));
        }
        edges = Edges {
            left: if more.left.less(edges.left) { more.left } else { edges.left },
            top: if more.top.less(edges.top) { more.top } else { edges.top },
            right: if edges.right.less(more.right) { more.right } else { edges.right },
            bottom: if edges.bottom.less(more.bottom) { more.bottom } else { edges.bottom },
        };
    }
    proof {
        assert(run.take(len as int) =~= run);
        lemma_are_numbers(run.map_values(|b: Edges| b.left));
        lemma_are_numbers(run.map_values(|b: Edges| b.right));
    }
    if edges.left.is_finite() && edges.top.is_finite() && edges.left.less(edges.right) {
        Some(edges)
    } else {
        None
    }
}

proof fn lemma_bounds(numbers: Seq<Float64>, i: int)
    requires
        0 <= i < numbers.len(),
        !numbers[i].nan(),
    ensures
        least(numbers).value() <= numbers[i].value() <= greatest(numbers).value(),
    decreases numbers.len(),
{
    lemma_are_numbers(numbers.drop_last());
    if i < numbers.len() - 1 {
        lemma_bounds(numbers.drop_last(), i);
    }
}

/// The rectangle of a run reaches around every character of the run whose own
/// edges are numbers.
pub proof fn law_a_run_encloses_its_characters(boxes: Seq<Edges>, start: int, len: int, i: int)
    requires
        0 <= start,
        start <= i < start + len,
        run_edges_of(boxes, start, len) is Some,
        !boxes[i].left.nan(),
        !boxes[i].top.nan(),
        !boxes[i].right.nan(),
        !boxes[i].bottom.nan(),
    ensures
        ({
            let edges = run_edges_of(boxes, start, len)->0;
            &&& edges.left.value() <= boxes[i].left.value()
            &&& edges.top.value() <= boxes[i].top.value()
            &&& boxes[i].right.value() <= edges.right.value()
            &&& boxes[i].bottom.value() <= edges.bottom.value()
        }),
{
    let run = boxes.subrange(start, start + len);
    assert(run[i - start] == boxes[i]);
    lemma_bounds(run.map_values(|b: Edges| b.left), i - start);
    lemma_bounds(run.map_values(|b: Edges| b.top), i - start);
    lemma_bounds(run.map_values(|b: Edges| b.right), i - start);
    lemma_bounds(run.map_values(|b: Edges| b.bottom), i - start);
}

/// A character that stands off from the one before it by no more than half the
/// height of either does not begin a line.
pub proof fn law_a_wobble_is_no_wrap(previous: CharacterRow, current: CharacterRow)
    requires
        !current.rise.nan(),
        !previous.half_height.nan() && current.rise.value() <= previous.half_height.value()
            || !current.half_height.nan() && current.rise.value() <= current.half_height.value(),
    ensures
        !begins_line(previous, current),
{
}

/// The ranges of a text's characters follow one another from its start: each takes one
/// code unit, or two for a character beyond the first plane.
pub proof fn law_ranges_follow_one_another(text: Seq<char>, i: int)
    requires
        2 * text.len() <= usize::MAX,
        0 <= i < text.len(),
    ensures
        ranges_of(text).len() == text.len(),
        ranges_of(text)[0].0 == 0,
        ranges_of(text)[i].1 == if (text[i] as u32) < 0x10000 {
            1int
        } else {
            2int
        },
        i + 1 < text.len() ==> ranges_of(text)[i + 1].0 == ranges_of(text)[i].0 + ranges_of(
            text,
        )[i].1,
{
    let (at, next) = (text.take(i), text.take(i + 1));
    assert(next.drop_last() =~= at);
    assert(next.last() == text[i]);
    assert(text.take(0).len() == 0);
    lemma_units_bounded(at);
    lemma_units_bounded(next);
}

proof fn lemma_units_bounded(text: Seq<char>)
    ensures
        units_of(text) <= 2 * text.len(),
    decreases text.len(),
{
    if text.len() > 0 {
        lemma_units_bounded(text.drop_last());
    }
}

/// A character that stands off from the one before it by more than a point, and by more
/// than half of either's height, begins a line; one that does not begins none. The first
/// character of a text is never a wrap.
pub proof fn law_a_drop_is_a_wrap(rows: Seq<CharacterRow>, i: int)
    requires
        0 <= i < rows.len(),
    ensures
        wraps_of(rows).len() == rows.len(),
        !wraps_of(rows)[0],
        i > 0 && !rows[i].rise.nan() && !rows[i].half_height.nan() && !rows[i - 1].half_height.nan()
            ==> (wraps_of(rows)[i] <==> rows[i].rise.value() > unit() && rows[i].rise.value()
            > rows[i].half_height.value() && rows[i].rise.value()
            > rows[i - 1].half_height.value()),
        rows[i].rise.nan() ==> !wraps_of(rows)[i],
{
}

proof fn lemma_least_attained(numbers: Seq<Float64>)
    ensures
        least(numbers) == Float64(INFINITE) || numbers.contains(least(numbers)),
    decreases numbers.len(),
{
    if numbers.len() > 0 {
        let init = numbers.drop_last();
        lemma_least_attained(init);
        assert(numbers[numbers.len() - 1] == numbers.last());
        if init.contains(least(init)) {
            let k = init.index_of(least(init));
            assert(numbers[k] == least(init));
        }
    }
}

proof fn lemma_greatest_attained(numbers: Seq<Float64>)
    ensures
        greatest(numbers) == Float64(NEGATIVE_INFINITE) || numbers.contains(greatest(numbers)),
    decreases numbers.len(),
{
    if numbers.len() > 0 {
        let init = numbers.drop_last();
        lemma_greatest_attained(init);
        assert(numbers[numbers.len() - 1] == numbers.last());
        if init.contains(greatest(init)) {
            let k = init.index_of(greatest(init));
            assert(numbers[k] == greatest(init));
        }
    }
}

/// Each edge of a run is the edge of one of its characters: the rectangle is no larger
/// than it has to be.
pub proof fn law_each_edge_of_a_run_is_that_of_a_character(boxes: Seq<Edges>, start: int, len: int)
    requires
        0 <= start,
        0 <= len,
        run_edges_of(boxes, start, len) is Some,
    ensures
        ({
            let edges = run_edges_of(boxes, start, len)->0;
            let of = |f: spec_fn(Edges) -> Float64, n: Float64|
                exists|i: int| start <= i < start + len && f(#[trigger] boxes[i]) == n;
            &&& of(|b: Edges| b.left, edges.left)
            &&& of(|b: Edges| b.top, edges.top)
            &&& of(|b: Edges| b.right, edges.right) || edges.right == Float64(NEGATIVE_INFINITE)
            &&& of(|b: Edges| b.bottom, edges.bottom) || edges.bottom == Float64(NEGATIVE_INFINITE)
        }),
{
    let own = boxes.subrange(start, start + len);
    let edges = run_edges_of(boxes, start, len)->0;
    let lefts = own.map_values(|b: Edges| b.left);
    let tops = own.map_values(|b: Edges| b.top);
    let rights = own.map_values(|b: Edges| b.right);
    let bottoms = own.map_values(|b: Edges| b.bottom);
    lemma_least_attained(lefts);
    lemma_least_attained(tops);
    lemma_greatest_attained(rights);
    lemma_greatest_attained(bottoms);
    assert(Float64(INFINITE).magnitude() == INFINITE);
    let k = lefts.index_of(edges.left);
    assert(boxes[start + k].left == edges.left);
    let m = tops.index_of(edges.top);
    assert(boxes[start + m].top == edges.top);
    if rights.contains(edges.right) {
        let r = rights.index_of(edges.right);
        assert(boxes[start + r].right == edges.right);
    }
    if bottoms.contains(edges.bottom) {
        let b = bottoms.index_of(edges.bottom);
        assert(boxes[start + b].bottom == edges.bottom);
    }
}

/// A run has a rectangle only if there is one for each of its characters, and a run
/// without characters has none.
pub proof fn law_a_run_needs_all_its_characters(boxes: Seq<Edges>, start: int, len: int)
    requires
        0 <= start,
        0 <= len,
    ensures
        run_edges_of(boxes, start, len) is Some ==> 0 < len && start + len <= boxes.len(),
        run_edges_of(boxes, start, len) matches Some(edges) ==> edges.left.finite()
            && edges.top.finite() && edges.left.value() < edges.right.value(),
{
}

/// A text is measured if it has something in it and is not too long to be, and then all of
/// it is.
pub proof fn law_short_texts_are_measured(text: &str, ranges: Option<Vec<(usize, usize)>>)
    requires
        call_ensures(geometry_ranges, (text,), ranges),
    ensures
        ranges is Some <==> 0 < text@.len() <= 512,
        ranges is Some ==> ranges->0@.len() == text@.len(),
{
}

} // verus!
