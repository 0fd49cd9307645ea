//! Turning an element's text into text runs.
//!
//! Three ways of counting meet here. A selection is reported in UTF-16 code
//! units; a position in a run counts characters; and each character has a length
//! in UTF-8 bytes. The conversions between them live here.

use crate::atspi::text::as_bytes_or_none;
use crate::atspi::text::capped;
use crate::atspi::text::clamp_text;
use crate::atspi::text::fit_bytes;
use crate::atspi::text::lemma_fit_bytes_push;
use crate::ax::element::id_of;
use crate::ax::element::lemma_with_owners;
use crate::ax::element::with_owner;
use crate::ax::element::with_owners;
use crate::ax::element::NodeIdMap;
use crate::ax::element::Owner;
use crate::lines::lines;
use crate::lines::split_lines;
use crate::lines::widths_of;
use crate::strings::chars_of;
use crate::strings::lemma_utf8_width;
use crate::strings::text_of;
use crate::strings::utf16_len;
use crate::strings::utf16_width;
use crate::strings::utf8_width;
use crate::strings::utf8_widths;
use crate::strings::views;
use crate::strings::white_space;
use crate::tree::bare_node;
use crate::tree::lemma_node_views_push;
use crate::tree::node_views;
use crate::tree::Node;
use crate::tree::NodeId;
use crate::tree::NodeView;
use crate::tree::Properties;
use crate::tree::Role;
use crate::tree::TextDirection;
use crate::tree::TextPosition;
use crate::tree::TextSelection;
use vstd::prelude::*;
use vstd::utf8::encode_utf8;

verus! {

/// The most characters one element gets a rectangle each for.
pub const MAX_GEOMETRY_CHARS: usize = 512;

/// Text longer than this is not mirrored.
pub const MAX_TEXT_CHARS: usize = 65_536;

/// Truncates to [`MAX_TEXT_CHARS`] characters.
pub fn clamp(text: &str) -> (clamped: &str)
    ensures
        clamped@ == capped(text@),
{
    clamp_text(text)
}

// ---------------------------------------------------------------- lines

/// Whether a new line begins at a character: after a newline, or where the text
/// was wrapped.
pub open spec fn breaks_at(text: Seq<char>, wraps: Seq<bool>, i: int) -> bool {
    0 < i && (text[i - 1] == '\n' || (i < wraps.len() && wraps[i]))
}

/// The lines among the first `n` characters, each by where it starts and how many
/// characters it has.
pub open spec fn spans_upto(text: Seq<char>, wraps: Seq<bool>, n: nat) -> Seq<(usize, usize)>
    decreases n,
{
    if n <= 1 {
        seq![(0usize, n as usize)]
    } else {
        let before = spans_upto(text, wraps, (n - 1) as nat);
        if breaks_at(text, wraps, n - 1) {
            before.push(((n - 1) as usize, 1usize))
        } else {
            let last = before.last();
            before.drop_last().push((last.0, (last.1 + 1) as usize))
        }
    }
}

/// The lines of a text. Text that ends in a newline has a last line with nothing
/// in it, and so has a text with nothing in it: there must be somewhere for the
/// caret to be.
pub open spec fn spans_of(text: Seq<char>, wraps: Seq<bool>) -> Seq<(usize, usize)> {
    let spans = spans_upto(text, wraps, text.len());
    if text.len() > 0 && text.last() == '\n' {
        spans.push((text.len() as usize, 0usize))
    } else {
        spans
    }
}

/// Whether spans follow one another from the start of a text to its `n`-th
/// character.
pub open spec fn contiguous(spans: Seq<(usize, usize)>, n: nat) -> bool {
    &&& spans.len() > 0
    &&& spans[0].0 == 0
    &&& forall|i: int|
        0 <= i < spans.len() - 1 ==> (#[trigger] spans[i]).0 + spans[i].1 == spans[i + 1].0
    &&& spans.last().0 + spans.last().1 == n
}

proof fn lemma_spans_upto(text: Seq<char>, wraps: Seq<bool>, n: nat)
    requires
        n <= text.len() <= usize::MAX,
    ensures
        contiguous(spans_upto(text, wraps, n), n),
        n > 0 ==> spans_upto(text, wraps, n).last().1 > 0,
    decreases n,
{
    if n > 1 {
        lemma_spans_upto(text, wraps, (n - 1) as nat);
        let before = spans_upto(text, wraps, (n - 1) as nat);
        let after = spans_upto(text, wraps, n);
        assert forall|i: int| 0 <= i < after.len() - 1 implies (#[trigger] after[i]).0 + after[i].1
            == after[i + 1].0 by {
            assert(after[i] == before[i]);
            if i + 1 < before.len() {
                assert(before[i].0 + before[i].1 == before[i + 1].0);
            } else {
                assert(before[i] == before.last());
            }
        }
    }
}

/// The lines of a text follow one another and hold all of it.
pub proof fn law_lines_cover_the_text(text: Seq<char>, wraps: Seq<bool>)
    requires
        text.len() <= usize::MAX,
    ensures
        contiguous(spans_of(text, wraps), text.len()),
{
    lemma_spans_upto(text, wraps, text.len());
    let before = spans_upto(text, wraps, text.len());
    let after = spans_of(text, wraps);
    if after.len() > before.len() {
        assert forall|i: int| 0 <= i < after.len() - 1 implies (#[trigger] after[i]).0 + after[i].1
            == after[i + 1].0 by {
            assert(after[i] == before[i]);
            if i + 1 < before.len() {
                assert(before[i].0 + before[i].1 == before[i + 1].0);
            } else {
                assert(before[i] == before.last());
            }
        }
    }
}

/// The texts of lines.
pub open spec fn span_texts(text: Seq<char>, spans: Seq<(usize, usize)>) -> Seq<Seq<char>> {
    spans.map_values(|s: (usize, usize)| text.subrange(s.0 as int, s.0 + s.1))
}

/// Where nothing was wrapped, the lines are the hard lines of the text.
pub proof fn law_unwrapped_lines_are_hard_lines(text: Seq<char>, wraps: Seq<bool>)
    requires
        text.len() <= usize::MAX,
        forall|i: int| 0 <= i < wraps.len() ==> !(#[trigger] wraps[i]),
    ensures
        span_texts(text, spans_of(text, wraps)) == lines(text),
{
    if text.len() == 0 {
        assert(text.subrange(0, 0) =~= Seq::<char>::empty());
        assert(span_texts(text, spans_of(text, wraps)) =~= lines(text));
    } else {
        lemma_unwrapped(text, wraps, text.len());
        lemma_spans_upto(text, wraps, text.len());
        assert(text.take(text.len() as int) =~= text);
        let spans = spans_upto(text, wraps, text.len());
        if text.last() == '\n' {
            let all = spans_of(text, wraps);
            let end = text.len() as int;
            assert(text.subrange(end, end) =~= Seq::<char>::empty());
            assert(span_texts(text, all) =~= span_texts(text, spans).push(Seq::empty()));
            assert(span_texts(text, all) =~= lines(text));
        } else {
            assert(span_texts(text, spans) =~= lines(text));
        }
    }
}

/// What the lines of the first `n` characters are as spans: the hard lines,
/// without the empty one after a newline.
proof fn lemma_unwrapped(text: Seq<char>, wraps: Seq<bool>, n: nat)
    requires
        0 < n <= text.len() <= usize::MAX,
        forall|i: int| 0 <= i < wraps.len() ==> !(#[trigger] wraps[i]),
    ensures
        ({
            let hard = lines(text.take(n as int));
            span_texts(text, spans_upto(text, wraps, n)) == if text[n - 1] == '\n' {
                hard.drop_last()
            } else {
                hard
            }
        }),
    decreases n,
{
    let taken = text.take(n as int);
    let spans = spans_upto(text, wraps, n);
    assert(taken.drop_last() =~= text.take(n - 1));
    assert(taken.last() == text[n - 1]);
    if n == 1 {
        reveal_with_fuel(lines, 2);
        assert(taken.drop_last() =~= Seq::<char>::empty());
        assert(text.subrange(0, 1) =~= seq![text[0]]);
        let hard = lines(taken);
        if text[0] == '\n' {
            assert(span_texts(text, spans) =~= hard.drop_last());
        } else {
            assert(span_texts(text, spans) =~= hard);
        }
    } else {
        let m = (n - 1) as nat;
        lemma_unwrapped(text, wraps, m);
        lemma_spans_upto(text, wraps, m);
        let before = spans_upto(text, wraps, m);
        let hard = lines(text.take(m as int));
        let grown = hard.drop_last().push(hard.last().push(text[n - 1]));
        assert(span_texts(text, before).len() == before.len());
        if breaks_at(text, wraps, n - 1) {
            assert(text[n - 2] == '\n');
            lemma_last_line_is_empty(text.take(m as int));
            assert(text.subrange(n - 1, n as int) =~= hard.last().push(text[n - 1]));
            assert(span_texts(text, spans) =~= grown);
        } else {
            let last = before.last();
            assert(text.subrange(last.0 as int, last.0 + last.1 + 1) =~= text.subrange(
                last.0 as int,
                last.0 + last.1,
            ).push(text[n - 1]));
            assert(span_texts(text, before).last() == text.subrange(
                last.0 as int,
                last.0 + last.1,
            ));
            assert(hard.last() == span_texts(text, before).last());
            assert(span_texts(text, spans).drop_last() =~= span_texts(text, before).drop_last());
            assert(span_texts(text, spans) =~= grown);
        }
        if text[n - 1] == '\n' {
            assert(lines(taken) == grown.push(Seq::<char>::empty()));
            assert(lines(taken).drop_last() =~= grown);
        } else {
            assert(lines(taken) == grown);
        }
    }
}

proof fn lemma_last_line_is_empty(text: Seq<char>)
    requires
        text.len() > 0,
        text.last() == '\n',
    ensures
        lines(text).last() == Seq::<char>::empty(),
{
}

/// The lines of a text, given at which characters it was wrapped: each by where
/// it starts and how many characters it has; see [`spans_of`].
fn line_spans(chars: &[char], wraps: &[bool]) -> (spans: Vec<(usize, usize)>)
    ensures
        spans@ == spans_of(chars@, wraps@),
{
    let mut spans: Vec<(usize, usize)> = Vec::new();
    let mut start: usize = 0;
    let mut i: usize = 1;
    if chars.len() == 0 {
        spans.push((0, 0));
        assert(spans@ =~= spans_of(chars@, wraps@));
        return spans;
    }
    assert(spans@.push((0usize, 1usize)) =~= spans_upto(chars@, wraps@, 1));
    while i < chars.len()
        invariant
            1 <= i <= chars.len(),
            start < i,
            spans@.push((start, (i - start) as usize)) == spans_upto(chars@, wraps@, i as nat),
        decreases chars.len() - i,
    {
        let ghost before = spans_upto(chars@, wraps@, i as nat);
        let wrapped: bool = i < wraps.len() && wraps[i];
        assert(before.drop_last() =~= spans@);
        if chars[i - 1] == '\n' || wrapped {
            spans.push((start, i - start));
            start = i;
        }
        i = i + 1;
    }
    spans.push((start, i - start));
    if chars[chars.len() - 1] == '\n' {
        spans.push((chars.len(), 0));
    }
    spans
}

/// Splits text into one run per hard line; see [`lines`].
pub fn split_runs(text: &str) -> (runs: Vec<String>)
    ensures
        views(runs@) == lines(text@),
{
    split_lines(text)
}

// ---------------------------------------------------------------- characters and words

/// The UTF-8 length of each character of a run.
pub fn character_lengths(run: &str) -> (lengths: Vec<u8>)
    ensures
        lengths@ == utf8_widths(run@),
{
    widths_of(run)
}

/// Whether a word begins at a character: one that is no blank, at the start or
/// after a blank.
pub open spec fn word_at(run: Seq<char>, i: int) -> bool {
    !white_space(run[i]) && (i == 0 || white_space(run[i - 1]))
}

/// Where words begin in a run.
pub open spec fn words_in(run: Seq<char>) -> Seq<int>
    decreases run.len(),
{
    if run.len() == 0 {
        Seq::empty()
    } else {
        let before = words_in(run.drop_last());
        if word_at(run, run.len() - 1) {
            before.push(run.len() - 1)
        } else {
            before
        }
    }
}

/// Where words begin in a run, or nothing when a beginning does not fit a byte.
pub fn word_starts(run: &str) -> (starts: Vec<u8>)
    ensures
        starts@ == as_bytes_or_none(words_in(run@)),
{
    let chars: Vec<char> = chars_of(run);
    let mut starts: Vec<u8> = Vec::new();
    let mut overflowed: bool = false;
    let mut previous_space: bool = true;
    let mut i: usize = 0;
    while i < chars.len()
        invariant
            i <= chars.len(),
            chars@ == run@,
            previous_space == (i == 0 || white_space(run@[i - 1])),
            overflowed == !fit_bytes(words_in(run@.take(i as int))),
            !overflowed ==> starts@ == words_in(run@.take(i as int)).map_values(|p: int| p as u8),
        decreases chars.len() - i,
    {
        let ghost seen = words_in(run@.take(i as int));
        let ghost more = run@.take(i + 1);
        assert(more.drop_last() =~= run@.take(i as int));
        let space: bool = chars[i].is_whitespace();
        if previous_space && !space {
            assert(word_at(more, i as int));
            let ghost now = words_in(more);
            assert(now == seen.push(i as int));
            proof {
                lemma_fit_bytes_push(seen, i as int);
            }
            if i > 255 {
                overflowed = true;
            } else {
                starts.push(i as u8);
                if !overflowed {
                    assert(starts@ =~= now.map_values(|p: int| p as u8));
                }
            }
        } else {
            assert(!word_at(more, i as int));
        }
        previous_space = space;
        i = i + 1;
    }
    assert(run@.take(i as int) =~= run@);
    if overflowed {
        return Vec::new();
    }
    starts
}

// ---------------------------------------------------------------- UTF-16 offsets

/// How many UTF-16 code units a text has.
pub open spec fn units_of(text: Seq<char>) -> nat
    decreases text.len(),
{
    if text.len() == 0 {
        0
    } else {
        units_of(text.drop_last()) + utf16_width(text.last())
    }
}

pub proof fn lemma_utf16_push(text: Seq<char>, i: int)
    requires
        0 <= i < text.len(),
    ensures
        units_of(text.take(i + 1)) == units_of(text.take(i)) + utf16_width(text[i]),
{
    assert(text.take(i + 1).drop_last() =~= text.take(i));
}

proof fn lemma_utf16_increases(text: Seq<char>, i: int, j: int)
    requires
        0 <= i < j <= text.len(),
    ensures
        units_of(text.take(i)) + (j - i) <= units_of(text.take(j)),
    decreases j,
{
    lemma_utf16_push(text, j - 1);
    if i < j - 1 {
        lemma_utf16_increases(text, i, j - 1);
    }
}

/// How many UTF-16 code units stand before a character; characters beyond the
/// text count for nothing.
pub open spec fn units_before(text: Seq<char>, index: int) -> nat {
    if index < text.len() {
        units_of(text.take(index))
    } else {
        units_of(text)
    }
}

proof fn lemma_units_first(text: Seq<char>)
    requires
        text.len() > 0,
    ensures
        units_of(text) == utf16_width(text[0]) + units_of(text.drop_first()),
    decreases text.len(),
{
    if text.len() == 1 {
        assert(text.drop_last() =~= Seq::<char>::empty());
        assert(text.drop_first() =~= Seq::<char>::empty());
    } else {
        lemma_units_first(text.drop_last());
        assert(text.drop_last().drop_first() =~= text.drop_first().drop_last());
        assert(text.drop_first().last() == text.last());
    }
}

/// A text has no more UTF-16 code units than bytes.
pub proof fn lemma_units_within_bytes(text: Seq<char>)
    ensures
        units_of(text) <= encode_utf8(text).len(),
    decreases text.len(),
{
    if text.len() > 0 {
        lemma_units_first(text);
        lemma_utf8_width(text[0]);
        lemma_units_within_bytes(text.drop_first());
    }
}

/// Converts a character index into an offset in UTF-16 code units.
pub fn char_to_utf16_offset(text: &str, char_index: usize) -> (offset: usize)
    ensures
        offset == units_before(text@, char_index as int),
{
    let chars: Vec<char> = chars_of(text);
    // A text has no more code units than bytes, and those can be counted.
    let _size: usize = text.as_bytes().len();
    proof {
        lemma_units_within_bytes(text@);
    }
    let mut offset: usize = 0;
    let mut i: usize = 0;
    while i < chars.len() && i < char_index
        invariant
            i <= chars.len(),
            i <= char_index,
            chars@ == text@,
            units_of(text@) <= usize::MAX,
            offset == units_of(text@.take(i as int)),
        decreases chars.len() - i,
    {
        proof {
            lemma_utf16_push(text@, i as int);
            if i + 1 < text@.len() {
                lemma_utf16_increases(text@, i + 1, text@.len() as int);
            }
            assert(text@.take(text@.len() as int) =~= text@);
        }
        offset = offset + utf16_len(chars[i]);
        i = i + 1;
    }
    assert(text@.take(text@.len() as int) =~= text@);
    offset
}

/// Which character an offset in UTF-16 code units is at, if `index` is: the first
/// that has at least that many units before it, or the end of the text.
pub open spec fn at_units(text: Seq<char>, offset: int, index: int) -> bool {
    &&& 0 <= index <= text.len()
    &&& index == text.len() || units_of(text.take(index)) >= offset
    &&& forall|j: int| 0 <= j < index ==> units_of(#[trigger] text.take(j)) < offset
}

/// An offset is at one character only.
pub proof fn lemma_at_units_unique(text: Seq<char>, offset: int, a: int, b: int)
    requires
        at_units(text, offset, a),
        at_units(text, offset, b),
    ensures
        a == b,
{
    if a < b {
        assert(units_of(text.take(a)) < offset);
    }
    if b < a {
        assert(units_of(text.take(b)) < offset);
    }
}

/// Which character an offset in UTF-16 code units is at.
pub open spec fn char_at_units(text: Seq<char>, offset: int) -> int {
    choose|index: int| at_units(text, offset, index)
}

/// Converts an offset in UTF-16 code units into a character index. An offset
/// beyond the text is the end of the text: a text may change between two reads,
/// and a caret at the end is a better answer than none.
pub fn utf16_to_char_index(text: &str, utf16_offset: usize) -> (index: usize)
    ensures
        at_units(text@, utf16_offset as int, index as int),
        index == char_at_units(text@, utf16_offset as int),
{
    let chars: Vec<char> = chars_of(text);
    let mut left: usize = utf16_offset;
    let mut i: usize = 0;
    while i < chars.len() && left > 0
        invariant
            i <= chars.len(),
            chars@ == text@,
            left == (if units_of(text@.take(i as int)) < utf16_offset {
                utf16_offset - units_of(text@.take(i as int))
            } else {
                0
            }),
            forall|j: int| 0 <= j < i ==> units_of(#[trigger] text@.take(j)) < utf16_offset,
        decreases chars.len() - i,
    {
        proof {
            lemma_utf16_push(text@, i as int);
        }
        let width: usize = utf16_len(chars[i]);
        left = if left > width {
            left - width
        } else {
            0
        };
        i = i + 1;
    }
    proof {
        assert(at_units(text@, utf16_offset as int, i as int));
        lemma_at_units_unique(
            text@,
            utf16_offset as int,
            i as int,
            char_at_units(text@, utf16_offset as int),
        );
    }
    i
}

/// A character's offset leads back to the character.
pub proof fn law_utf16_offsets_round_trip(text: Seq<char>, index: int)
    requires
        0 <= index <= text.len(),
    ensures
        char_at_units(text, units_before(text, index) as int) == index,
{
    let offset = units_before(text, index) as int;
    assert(text.take(text.len() as int) =~= text);
    assert forall|j: int| 0 <= j < index implies units_of(#[trigger] text.take(j)) < offset by {
        lemma_utf16_increases(text, j, index);
    }
    assert(at_units(text, offset, index));
    lemma_at_units_unique(text, offset, index, char_at_units(text, offset));
}

proof fn lemma_at_units_from(text: Seq<char>, offset: int, from: int) -> (index: int)
    requires
        0 <= from <= text.len(),
        forall|j: int| 0 <= j < from ==> units_of(#[trigger] text.take(j)) < offset,
    ensures
        at_units(text, offset, index),
    decreases text.len() - from,
{
    if from == text.len() || units_of(text.take(from)) >= offset {
        from
    } else {
        lemma_at_units_from(text, offset, from + 1)
    }
}

/// Whatever the offset, it leads to a character of the text or to its end; one at
/// or past the end of the text leads to the end; and a later offset leads to no
/// earlier character.
pub proof fn law_utf16_offsets_keep_their_order(text: Seq<char>, offset: int, later: int)
    requires
        offset <= later,
    ensures
        0 <= char_at_units(text, offset) <= char_at_units(text, later) <= text.len(),
        offset >= units_of(text) ==> char_at_units(text, offset) == text.len(),
{
    let a = lemma_at_units_from(text, offset, 0);
    let b = lemma_at_units_from(text, later, 0);
    lemma_at_units_unique(text, offset, a, char_at_units(text, offset));
    lemma_at_units_unique(text, later, b, char_at_units(text, later));
    if b < a {
        assert(units_of(text.take(b)) < offset);
    }
    if offset >= units_of(text) && a < text.len() {
        lemma_utf16_increases(text, a, text.len() as int);
        assert(text.take(text.len() as int) =~= text);
    }
}

// ---------------------------------------------------------------- positions

/// Where one run is in the element's text.
#[derive(Debug, Clone, Copy, PartialEq, Eq, Structural)]
pub struct RunLayout {
    pub id: NodeId,
    /// The run's first character within the whole text.
    pub start: usize,
    /// How many characters the run has.
    pub len: usize,
}

/// Whether the end of each run can be counted.
pub open spec fn ends_fit(layout: Seq<RunLayout>) -> bool {
    forall|i: int| 0 <= i < layout.len() ==> (#[trigger] layout[i]).start + layout[i].len <= usize::MAX
}

/// The position of an offset: in the first run that ends behind it, or at the end
/// of the last. An offset where two runs meet is at the start of the second.
pub open spec fn position_in(layout: Seq<RunLayout>, offset: nat) -> Option<TextPosition>
    decreases layout.len(),
{
    if layout.len() == 0 {
        None
    } else {
        let run = layout[0];
        if offset < run.start + run.len {
            Some(
                TextPosition {
                    node: run.id,
                    character_index: if offset > run.start {
                        (offset - run.start) as usize
                    } else {
                        0
                    },
                },
            )
        } else if layout.len() == 1 {
            Some(TextPosition { node: run.id, character_index: run.len })
        } else {
            position_in(layout.drop_first(), offset)
        }
    }
}

/// Resolves a character offset within the whole text to a position in a run; see
/// [`position_in`].
pub fn position(layout: &[RunLayout], offset: usize) -> (at: Option<TextPosition>)
    requires
        ends_fit(layout@),
    ensures
        at == position_in(layout@, offset as nat),
{
    assert(layout@.skip(0) =~= layout@);
    let mut i: usize = 0;
    while i < layout.len()
        invariant
            i <= layout.len(),
            ends_fit(layout@),
            i < layout@.len() || i == 0,
            position_in(layout@, offset as nat) == position_in(
                layout@.skip(i as int),
                offset as nat,
            ),
        decreases layout.len() - i,
    {
        let run: RunLayout = layout[i];
        let ghost rest = layout@.skip(i as int);
        assert(rest[0] == run);
        assert(rest.drop_first() =~= layout@.skip(i + 1));
        assert(layout@[i as int].start + layout@[i as int].len <= usize::MAX);
        if offset < run.start + run.len {
            let index: usize = if offset > run.start {
                offset - run.start
            } else {
                0
            };
            return Some(TextPosition { node: run.id, character_index: index });
        }
        if i + 1 == layout.len() {
            return Some(TextPosition { node: run.id, character_index: run.len });
        }
        i = i + 1;
    }
    None
}

/// The selection of a range in UTF-16 code units. A range with nothing in it is a
/// caret: both ends are the same.
pub open spec fn selection_at(
    text: Seq<char>,
    layout: Seq<RunLayout>,
    start: int,
    len: int,
) -> Option<TextSelection> {
    match (
        position_in(layout, char_at_units(text, start) as nat),
        position_in(layout, char_at_units(text, start + len) as nat),
    ) {
        (Some(anchor), Some(focus)) => Some(TextSelection { anchor, focus }),
        _ => None,
    }
}

/// The selection of a range in UTF-16 code units; see [`selection_at`].
pub fn selection(text: &str, layout: &[RunLayout], utf16_start: usize, utf16_len: usize) -> (result:
    Option<TextSelection>)
    requires
        ends_fit(layout@),
        utf16_start + utf16_len <= usize::MAX,
    ensures
        result == selection_at(text@, layout@, utf16_start as int, utf16_len as int),
{
    let start: usize = utf16_to_char_index(text, utf16_start);
    let end: usize = utf16_to_char_index(text, utf16_start + utf16_len);
    match (position(layout, start), position(layout, end)) {
        (Some(anchor), Some(focus)) => Some(TextSelection { anchor, focus }),
        _ => None,
    }
}

// ---------------------------------------------------------------- runs

/// The node of one run. Its direction is always given: without one a consumer
/// makes no use of any geometry.
pub open spec fn run_node(run: Seq<char>) -> NodeView {
    let bare = bare_node(Role::TextRun);
    NodeView {
        props: Properties { text_direction: Some(TextDirection::LeftToRight), ..bare.props },
        value: Some(run),
        character_lengths: utf8_widths(run),
        word_starts: as_bytes_or_none(words_in(run)),
        ..bare
    }
}

/// The runs under a node, as owners of ids.
pub open spec fn run_owners(parent: NodeId, count: nat) -> Seq<Owner> {
    Seq::new(count, |i: int| Owner::Run { parent, index: i as usize })
}

/// Whether `given` are the ids of owners that all have one.
pub open spec fn are_ids(owners: Seq<Owner>, all: Seq<Owner>, given: Seq<NodeId>) -> bool {
    &&& given.len() == all.len()
    &&& forall|j: int|
        0 <= j < all.len() ==> owners.contains(#[trigger] all[j]) && given[j] == id_of(
            owners,
            all[j],
        )
}

/// Giving one more owner an id keeps the ids given before.
pub proof fn lemma_are_ids_push(
    owners: Seq<Owner>,
    all: Seq<Owner>,
    given: Seq<NodeId>,
    owner: Owner,
)
    requires
        owners.no_duplicates(),
        are_ids(owners, all, given),
    ensures
        are_ids(
            with_owner(owners, owner),
            all.push(owner),
            given.push(id_of(with_owner(owners, owner), owner)),
        ),
{
    let after = with_owner(owners, owner);
    let (longer, ids) = (all.push(owner), given.push(id_of(after, owner)));
    if !owners.contains(owner) {
        assert(after[owners.len() as int] == owner);
    }
    assert forall|j: int| 0 <= j < longer.len() implies after.contains(#[trigger] longer[j])
        && ids[j] == id_of(after, longer[j]) by {
        if j < all.len() {
            assert(owners.contains(all[j]));
            lemma_id_kept(owners, owner, all[j]);
        }
    }
}

/// The nodes of a text's runs.
pub open spec fn runs_of(
    text: Seq<char>,
    wraps: Seq<bool>,
    parent: NodeId,
    owners: Seq<Owner>,
) -> Seq<(NodeId, NodeView)> {
    let spans = spans_of(text, wraps);
    Seq::new(
        spans.len(),
        |i: int|
            (
                id_of(owners, Owner::Run { parent, index: i as usize }),
                run_node(text.subrange(spans[i].0 as int, spans[i].0 + spans[i].1)),
            ),
    )
}

/// The layout of a text's runs.
pub open spec fn layout_of(
    text: Seq<char>,
    wraps: Seq<bool>,
    parent: NodeId,
    owners: Seq<Owner>,
) -> Seq<RunLayout> {
    let spans = spans_of(text, wraps);
    Seq::new(
        spans.len(),
        |i: int|
            RunLayout {
                id: id_of(owners, Owner::Run { parent, index: i as usize }),
                start: spans[i].0,
                len: spans[i].1,
            },
    )
}

fn build_run(run: String) -> (node: Node)
    ensures
        node@ == run_node(run@),
{
    let mut node = Node::new(Role::TextRun);
    node.character_lengths = character_lengths(run.as_str());
    node.word_starts = word_starts(run.as_str());
    node.props.text_direction = Some(TextDirection::LeftToRight);
    node.value = Some(run);
    node
}

proof fn lemma_span_fits(text: Seq<char>, wraps: Seq<bool>, i: int)
    requires
        text.len() <= usize::MAX,
        0 <= i < spans_of(text, wraps).len(),
    ensures
        spans_of(text, wraps)[i].0 + spans_of(text, wraps)[i].1 <= text.len(),
    decreases spans_of(text, wraps).len() - i,
{
    let spans = spans_of(text, wraps);
    law_lines_cover_the_text(text, wraps);
    if i < spans.len() - 1 {
        lemma_span_fits(text, wraps, i + 1);
        assert(spans[i].0 + spans[i].1 == spans[i + 1].0);
    } else {
        assert(spans[i] == spans.last());
    }
}

/// Which characters each run of a text is made of: where it starts, and how many
/// there are.
pub fn run_spans(text: &str, wraps: &[bool]) -> (spans: Vec<(usize, usize)>)
    ensures
        spans@ == spans_of(capped(text@), wraps@),
{
    let chars: Vec<char> = chars_of(clamp(text));
    line_spans(chars.as_slice(), wraps)
}

/// Builds the runs of a text under `parent`, and their layout, so that an offset
/// can be resolved afterwards. Ids are stable: the same run under the same parent
/// keeps its own. `wraps` tells at which characters the text was wrapped; where
/// that is not known, only hard lines are.
pub fn build_runs(text: &str, wraps: &[bool], parent: NodeId, ids: &mut NodeIdMap) -> (built: (
    Vec<(NodeId, Node)>,
    Vec<RunLayout>,
))
    requires
        old(ids).wf(),
    ensures
        final(ids).wf(),
        ({
            let shown = capped(text@);
            let count = spans_of(shown, wraps@).len();
            &&& final(ids)@ == with_owners(old(ids)@, run_owners(parent, count))
            &&& node_views(built.0@) == runs_of(shown, wraps@, parent, final(ids)@)
            &&& built.1@ == layout_of(shown, wraps@, parent, final(ids)@)
            &&& ends_fit(built.1@)
        }),
{
    let text: &str = clamp(text);
    let chars: Vec<char> = chars_of(text);
    let spans: Vec<(usize, usize)> = line_spans(chars.as_slice(), wraps);
    let ghost all = run_owners(parent, spans@.len());
    let mut given: Vec<NodeId> = Vec::new();
    let mut i: usize = 0;
    assert(all.take(0) =~= Seq::<Owner>::empty());
    let ghost first = ids@;
    proof {
        ids.lemma_wf();
    }
    while i < spans.len()
        invariant
            i <= spans.len(),
            all == run_owners(parent, spans@.len()),
            ids.wf(),
            first.no_duplicates(),
            ids@ == with_owners(first, all.take(i as int)),
            are_ids(ids@, all.take(i as int), given@),
        decreases spans.len() - i,
    {
        let ghost (before, prior) = (ids@, given@);
        let id: NodeId = ids.run_id_for(parent, i);
        given.push(id);
        proof {
            let more = all.take(i + 1);
            assert(more.drop_last() =~= all.take(i as int));
            assert(more.last() == (Owner::Run { parent, index: i }));
            lemma_with_owners(first, all.take(i as int));
            lemma_are_ids_push(before, all.take(i as int), prior, Owner::Run { parent, index: i });
            assert(all.take(i as int).push(Owner::Run { parent, index: i }) =~= more);
        }
        i = i + 1;
    }
    assert(all.take(i as int) =~= all);
    let mut nodes: Vec<(NodeId, Node)> = Vec::new();
    let mut layout: Vec<RunLayout> = Vec::new();
    let ghost wanted = runs_of(text@, wraps@, parent, ids@);
    let ghost places = layout_of(text@, wraps@, parent, ids@);
    let mut k: usize = 0;
    assert(node_views(nodes@) =~= wanted.take(0));
    while k < spans.len()
        invariant
            k <= spans.len(),
            chars@ == text@,
            spans@ == spans_of(text@, wraps@),
            given@.len() == spans@.len(),
            all == run_owners(parent, spans@.len()),
            wanted == runs_of(text@, wraps@, parent, ids@),
            places == layout_of(text@, wraps@, parent, ids@),
            are_ids(ids@, all, given@),
            node_views(nodes@) == wanted.take(k as int),
            layout@ == places.take(k as int),
            ends_fit(layout@),
        decreases spans.len() - k,
    {
        let (start, len): (usize, usize) = spans[k];
        let n: usize = chars.len();
        proof {
            lemma_span_fits(text@, wraps@, k as int);
        }
        let run: String = text_of(chars.as_slice(), start, start + len);
        let node: Node = build_run(run);
        let id: NodeId = given[k];
        assert(id == id_of(ids@, all[k as int]));
        proof {
            lemma_node_views_push(nodes@, (id, node));
        }
        nodes.push((id, node));
        layout.push(RunLayout { id, start, len });
        assert(node_views(nodes@) =~= wanted.take(k + 1));
        assert(layout@ =~= places.take(k + 1));
        k = k + 1;
    }
    assert(wanted.take(k as int) =~= wanted);
    assert(places.take(k as int) =~= places);
    (nodes, layout)
}

/// Giving another owner an id changes no id.
pub proof fn lemma_id_kept(owners: Seq<Owner>, other: Owner, owner: Owner)
    requires
        owners.no_duplicates(),
        owners.contains(owner),
    ensures
        with_owner(owners, other).contains(owner),
        id_of(with_owner(owners, other), owner) == id_of(owners, owner),
{
    let more = seq![other];
    assert(more.drop_last() =~= Seq::<Owner>::empty());
    assert(with_owners(owners, more.drop_last()) == owners);
    assert(with_owners(owners, more) == with_owner(owners, other));
    lemma_with_owners(owners, more);
    let after = with_owner(owners, other);
    let i = owners.index_of(owner);
    assert(owners[i] == owner);
    assert(after[i] == after.take(owners.len() as int)[i]);
    crate::ax::element::lemma_place(after, i, owner);
    crate::ax::element::lemma_place(owners, i, owner);
}

// ---------------------------------------------------------------- what a text's runs are

/// Whether a line starts at a character.
pub open spec fn line_starts(spans: Seq<(usize, usize)>, i: int) -> bool {
    exists|k: int| 0 <= k < spans.len() && (#[trigger] spans[k]).0 == i
}

proof fn lemma_line_starts(text: Seq<char>, wraps: Seq<bool>, n: nat, i: int)
    requires
        1 <= n <= text.len() <= usize::MAX,
    ensures
        0 < i < n ==> (line_starts(spans_upto(text, wraps, n), i) <==> text[i - 1] == '\n' || (i
            < wraps.len() && wraps[i])),
        forall|k: int|
            0 <= k < spans_upto(text, wraps, n).len() ==> (#[trigger] spans_upto(text, wraps, n)[k]).1
                > 0 && spans_upto(text, wraps, n)[k].0 < n,
    decreases n,
{
    lemma_spans_upto(text, wraps, n);
    if n > 1 {
        let m = (n - 1) as nat;
        lemma_line_starts(text, wraps, m, i);
        lemma_spans_upto(text, wraps, m);
        let (before, after) = (spans_upto(text, wraps, m), spans_upto(text, wraps, n));
        let last = before.len() - 1;
        assert forall|k: int| 0 <= k < after.len() implies (#[trigger] after[k]).1 > 0 && after[k].0
            < n by {
            if k < before.len() {
                assert(before[k].0 < m);
                assert(before[k].1 > 0);
            }
        }
        if line_starts(before, i) {
            let k = choose|k: int| 0 <= k < before.len() && (#[trigger] before[k]).0 == i;
            assert(after[k].0 == i);
        }
        if line_starts(after, i) && i != m {
            let k = choose|k: int| 0 <= k < after.len() && (#[trigger] after[k]).0 == i;
            assert(k < before.len());
            assert(before[k].0 == i);
        }
        if i == m {
            if breaks_at(text, wraps, i) {
                assert(after[last + 1].0 == i);
            } else if line_starts(after, i) {
                let k = choose|k: int| 0 <= k < after.len() && (#[trigger] after[k]).0 == i;
                assert(before[k].0 == i);
            }
        }
    }
}

/// A line starts at the first character, after each newline and wherever the text was
/// wrapped, and nowhere else. Only a text with nothing in it, or the end of a text that
/// ends in a newline, is a line of no characters.
pub proof fn law_lines_start_after_breaks(text: Seq<char>, wraps: Seq<bool>, i: int)
    requires
        text.len() <= usize::MAX,
    ensures
        line_starts(spans_of(text, wraps), 0),
        0 < i < text.len() ==> (line_starts(spans_of(text, wraps), i) <==> text[i - 1] == '\n' || (
        i < wraps.len() && wraps[i])),
        text.len() > 0 ==> (line_starts(spans_of(text, wraps), text.len() as int) <==> text.last()
            == '\n'),
        0 <= i < spans_of(text, wraps).len() && spans_of(text, wraps)[i].1 == 0 ==> i
            == spans_of(text, wraps).len() - 1 && (text.len() == 0 || text.last() == '\n'),
{
    let spans = spans_of(text, wraps);
    law_lines_cover_the_text(text, wraps);
    assert(spans[0].0 == 0);
    if text.len() > 0 {
        let upto = spans_upto(text, wraps, text.len());
        lemma_line_starts(text, wraps, text.len(), i);
        assert forall|k: int| 0 <= k < upto.len() implies spans[k] == #[trigger] upto[k] by {}
        if text.last() == '\n' {
            assert(spans[upto.len() as int].0 == text.len());
        }
        if line_starts(spans, i) && i < text.len() {
            let k = choose|k: int| 0 <= k < spans.len() && (#[trigger] spans[k]).0 == i;
            assert(upto[k].0 == i);
        }
        if line_starts(upto, i) {
            let k = choose|k: int| 0 <= k < upto.len() && (#[trigger] upto[k]).0 == i;
            assert(spans[k].0 == i);
        }
        if line_starts(spans, text.len() as int) {
            let k = choose|k: int| 0 <= k < spans.len() && (#[trigger] spans[k]).0 == text.len();
            if k < upto.len() {
                assert(upto[k].0 < text.len());
            }
        }
        if 0 <= i < upto.len() {
            assert(upto[i].1 > 0);
        }
    }
}

proof fn lemma_words_within(run: Seq<char>, i: int)
    requires
        0 <= i < words_in(run).len(),
    ensures
        0 <= words_in(run)[i] < run.len(),
    decreases run.len(),
{
    if run.len() > 0 && i < words_in(run.drop_last()).len() {
        lemma_words_within(run.drop_last(), i);
    }
}

/// The words of a run begin at what is no white space, at its start and wherever white
/// space comes before; where one begins is told in order, or not at all if it does not
/// fit a byte.
pub proof fn law_words_begin_after_white_space(run: Seq<char>, i: int, j: int)
    ensures
        words_in(run).contains(i) <==> 0 <= i < run.len() && !white_space(run[i]) && (i == 0
            || white_space(run[i - 1])),
        0 <= i < j < words_in(run).len() ==> words_in(run)[i] < words_in(run)[j],
        run_node(run).word_starts.len() == 0 || run_node(run).word_starts.len() == words_in(
            run,
        ).len(),
        0 <= i < run_node(run).word_starts.len() ==> run_node(run).word_starts[i] == words_in(
            run,
        )[i],
        (forall|k: int| 0 <= k < words_in(run).len() ==> #[trigger] words_in(run)[k] <= 255)
            ==> run_node(run).word_starts.len() == words_in(run).len(),
    decreases run.len(),
{
    let starts = words_in(run);
    if run.len() > 0 {
        let init = run.drop_last();
        let before = words_in(init);
        let last = run.len() - 1;
        law_words_begin_after_white_space(init, i, j);
        if before.contains(i) {
            let k = before.index_of(i);
            assert(starts[k] == i);
            assert(init[i] == run[i]);
            if i > 0 {
                assert(init[i - 1] == run[i - 1]);
            }
        }
        if starts.contains(i) && i != last {
            let k = starts.index_of(i);
            assert(before[k] == i);
        }
        if word_at(run, last) {
            assert(starts[before.len() as int] == last);
        }
        if starts.contains(i) && i == last && !word_at(run, last) {
            let k = starts.index_of(i);
            lemma_words_within(init, k);
        }
        if 0 <= i < before.len() {
            lemma_words_within(init, i);
        }
        if 0 <= i < init.len() {
            assert(init[i] == run[i]);
            if i > 0 {
                assert(init[i - 1] == run[i - 1]);
            }
        }
    }
    if 0 <= i < starts.len() {
        lemma_words_within(run, i);
        if fit_bytes(starts) {
            assert(starts[i] <= u8::MAX);
        }
    }
}

/// Each character takes one code unit of UTF-16, and one beyond the first plane takes two.
pub proof fn law_code_units_add_up(text: Seq<char>, i: int)
    requires
        0 <= i < text.len(),
    ensures
        units_before(text, 0) == 0,
        units_before(text, i + 1) == units_before(text, i) + if (text[i] as u32) < 0x10000 {
            1nat
        } else {
            2nat
        },
        units_before(text, text.len() as int) == units_of(text),
{
    let next = text.take(i + 1);
    assert(next.drop_last() =~= text.take(i));
    assert(next.last() == text[i]);
    assert(text.take(0).len() == 0);
    assert(text.take(text.len() as int) =~= text);
}

/// An offset lies in the run that holds its character: where two runs meet, in the
/// second, and past the end, at the end of the last.
pub proof fn law_an_offset_lies_in_the_run_of_its_character(
    layout: Seq<RunLayout>,
    offset: nat,
) -> (r: int)
    requires
        layout.len() > 0,
        forall|i: int|
            0 <= i < layout.len() - 1 ==> (#[trigger] layout[i]).start + layout[i].len == layout[i
                + 1].start,
        layout[0].start <= offset,
    ensures
        0 <= r < layout.len(),
        position_in(layout, offset) matches Some(at) && {
            let end = layout.last().start + layout.last().len;
            &&& at.node == layout[r].id
            &&& offset < end ==> layout[r].start + at.character_index == offset
                && at.character_index < layout[r].len
            &&& offset >= end ==> r == layout.len() - 1 && at.character_index == layout[r].len
        },
    decreases layout.len(),
{
    let run = layout[0];
    if offset < run.start + run.len {
        lemma_starts_grow(layout, layout.len() - 1);
        0
    } else if layout.len() == 1 {
        0
    } else {
        let rest = layout.drop_first();
        assert(rest[0] == layout[1]);
        assert forall|i: int| 0 <= i < rest.len() - 1 implies (#[trigger] rest[i]).start
            + rest[i].len == rest[i + 1].start by {
            assert(layout[i + 1].start + layout[i + 1].len == layout[i + 2].start);
        }
        let r = law_an_offset_lies_in_the_run_of_its_character(rest, offset);
        r + 1
    }
}

proof fn lemma_starts_grow(layout: Seq<RunLayout>, k: int)
    requires
        0 <= k < layout.len(),
        forall|i: int|
            0 <= i < layout.len() - 1 ==> (#[trigger] layout[i]).start + layout[i].len == layout[i
                + 1].start,
    ensures
        layout[0].start + layout[0].len <= layout[k].start + layout[k].len,
    decreases k,
{
    if k > 0 {
        lemma_starts_grow(layout, k - 1);
        assert(layout[k - 1].start + layout[k - 1].len == layout[k].start);
    }
}

/// The ends of a selection are the carets at its ends: it starts where a caret at its
/// start is, and ends where a caret at its end is. There is none only where there is no
/// run.
pub proof fn law_a_selection_ends_where_carets_are(
    text: Seq<char>,
    layout: Seq<RunLayout>,
    start: int,
    len: int,
)
    ensures
        layout.len() == 0 ==> selection_at(text, layout, start, len) is None,
        layout.len() > 0 ==> {
            let selected = selection_at(text, layout, start, len);
            let (first, second) = (
                selection_at(text, layout, start, 0),
                selection_at(text, layout, start + len, 0),
            );
            &&& selected is Some
            &&& first is Some && first->0.anchor == first->0.focus
            &&& second is Some
            &&& selected->0.anchor == first->0.anchor
            &&& selected->0.focus == second->0.anchor
            &&& Some(selected->0.anchor) == position_in(layout, char_at_units(text, start) as nat)
        },
    decreases layout.len(),
{
    if layout.len() > 0 {
        lemma_some_position(layout, char_at_units(text, start) as nat);
        lemma_some_position(layout, char_at_units(text, start + len) as nat);
    }
}

proof fn lemma_some_position(layout: Seq<RunLayout>, offset: nat)
    requires
        layout.len() > 0,
    ensures
        position_in(layout, offset) is Some,
    decreases layout.len(),
{
    if layout.len() > 1 {
        lemma_some_position(layout.drop_first(), offset);
    }
}

/// A run says its own text and nothing else: it is a run of left-to-right text with a
/// byte length for each character.
pub proof fn law_a_run_says_its_text(run: Seq<char>, i: int)
    ensures
        ({
            let node = run_node(run);
            &&& node.value == Some(run)
            &&& node.props.role == Role::TextRun
            &&& node.props.text_direction == Some(TextDirection::LeftToRight)
            &&& node.character_lengths.len() == run.len()
            &&& 0 <= i < run.len() ==> node.character_lengths[i] == utf8_width(run[i])
            &&& node.label is None
            &&& node.description is None
            &&& node.children.len() == 0
        }),
{
}

/// The runs of a text are its lines, in their order: run `i` has the id of the `i`-th run
/// under its parent, says the characters of its line, and is laid out where they are.
pub proof fn law_runs_are_the_lines_of_the_text(
    text: Seq<char>,
    wraps: Seq<bool>,
    parent: NodeId,
    owners: Seq<Owner>,
    i: int,
)
    requires
        text.len() <= usize::MAX,
    ensures
        ({
            let (runs, layout) = (
                runs_of(text, wraps, parent, owners),
                layout_of(text, wraps, parent, owners),
            );
            &&& runs.len() == layout.len() == spans_of(text, wraps).len()
            &&& layout[0].start == 0
            &&& layout.last().start + layout.last().len == text.len()
            &&& 0 <= i < runs.len() ==> {
                let (start, end) = (layout[i].start as int, layout[i].start + layout[i].len);
                &&& runs[i].0 == layout[i].id
                &&& runs[i].0 == id_of(
                    owners,
                    Owner::Run { parent, index: i as usize },
                )
                &&& end <= text.len()
                &&& runs[i].1.value == Some(text.subrange(start, end))
                &&& runs[i].1.character_lengths.len() == layout[i].len
                &&& i + 1 < runs.len() ==> end == layout[i + 1].start
            }
        }),
{
    law_lines_cover_the_text(text, wraps);
    let spans = spans_of(text, wraps);
    if 0 <= i < spans.len() {
        lemma_span_fits(text, wraps, i);
        if i + 1 < spans.len() {
            assert(spans[i].0 + spans[i].1 == spans[i + 1].0);
        }
    }
}

} // verus!
