//! Text as the hard lines it consists of.

use crate::strings::utf8_len;
use crate::strings::utf8_widths;
use crate::strings::views;
use vstd::prelude::*;

verus! {

/// The hard lines of a text, read left to right: each keeps its line break, and
/// after the last break there is a line, be it empty, so that the end of the
/// text always lies in one.
pub open spec fn lines(text: Seq<char>) -> Seq<Seq<char>>
    decreases text.len(),
{
    if text.len() == 0 {
        seq![Seq::empty()]
    } else {
        let before = lines(text.drop_last());
        let grown = before.drop_last().push(before.last().push(text.last()));
        if text.last() == '\n' {
            grown.push(Seq::empty())
        } else {
            grown
        }
    }
}

/// All the characters of a sequence of texts, one after another.
pub open spec fn joined(texts: Seq<Seq<char>>) -> Seq<char>
    decreases texts.len(),
{
    if texts.len() == 0 {
        Seq::empty()
    } else {
        joined(texts.drop_last()) + texts.last()
    }
}

/// Where the `i`-th of a sequence of texts begins, when they stand one after
/// another.
pub open spec fn start_of(texts: Seq<Seq<char>>, i: int) -> nat {
    joined(texts.take(i)).len()
}

pub proof fn lemma_lines_not_empty(text: Seq<char>)
    ensures
        lines(text).len() > 0,
{
}

/// The lines of a text are that text: nothing is lost, added or moved.
pub proof fn law_lines_concatenate_to_the_text(text: Seq<char>)
    ensures
        joined(lines(text)) == text,
    decreases text.len(),
{
    if text.len() == 0 {
        reveal_with_fuel(joined, 2);
        assert(lines(text).drop_last() =~= Seq::<Seq<char>>::empty());
        assert(joined(lines(text)) =~= text);
    } else {
        let init = text.drop_last();
        law_lines_concatenate_to_the_text(init);
        lemma_lines_not_empty(init);
        let before = lines(init);
        let grown = before.drop_last().push(before.last().push(text.last()));
        assert(grown.drop_last() =~= before.drop_last());
        assert(joined(grown) =~= joined(before).push(text.last()));
        assert(joined(before).push(text.last()) =~= text);
        if text.last() == '\n' {
            assert(lines(text).drop_last() =~= grown);
            assert(joined(lines(text)) =~= joined(grown));
        }
    }
}

/// A line break stands only at the end of a line, and ends every line but the
/// last.
pub proof fn law_breaks_end_every_line_but_the_last(text: Seq<char>)
    ensures
        lines(text).len() > 0,
        !lines(text).last().contains('\n'),
        forall|i: int|
            0 <= i < lines(text).len() - 1 ==> {
                &&& (#[trigger] lines(text)[i]).len() > 0
                &&& lines(text)[i].last() == '\n'
                &&& !lines(text)[i].drop_last().contains('\n')
            },
    decreases text.len(),
{
    if text.len() > 0 {
        let init = text.drop_last();
        law_breaks_end_every_line_but_the_last(init);
        let before = lines(init);
        let current = before.last().push(text.last());
        assert(current.drop_last() =~= before.last());
        assert forall|c: char| current.contains(c) implies before.last().contains(c) || c
            == text.last() by {
            let i = current.index_of(c);
            if i < before.last().len() {
                assert(before.last()[i] == c);
            }
        }
        let after = lines(text);
        assert forall|i: int| 0 <= i < after.len() - 1 implies {
            &&& (#[trigger] after[i]).len() > 0
            &&& after[i].last() == '\n'
            &&& !after[i].drop_last().contains('\n')
        } by {
            if i < before.len() - 1 {
                assert(after[i] == before[i]);
            } else {
                assert(after[i] == current);
            }
        }
    }
}

/// Starts are where the texts before end, and the last text ends where all do.
pub proof fn lemma_start_of_next(texts: Seq<Seq<char>>, i: int)
    requires
        0 <= i < texts.len(),
    ensures
        start_of(texts, i + 1) == start_of(texts, i) + texts[i].len(),
        start_of(texts, i + 1) <= joined(texts).len(),
    decreases texts.len(),
{
    assert(texts.take(i + 1).drop_last() =~= texts.take(i));
    if i + 1 < texts.len() {
        lemma_start_of_next(texts.drop_last(), i);
        assert(texts.drop_last().take(i + 1) =~= texts.take(i + 1));
    } else {
        assert(texts.take(i + 1) =~= texts);
    }
}

/// Splits text into its hard lines.
pub fn split_lines(text: &str) -> (split: Vec<String>)
    ensures
        views(split@) == lines(text@),
{
    let mut split: Vec<String> = Vec::new();
    let mut current: String = String::new();
    assert(views(split@).push(current@) =~= lines(text@.take(0)));
    for c in it: text.chars()
        invariant
            views(split@).push(current@) == lines(text@.take(it.index())),
            it.seq() == text@,
    {
        let ghost seen = text@.take(it.index());
        let ghost more = text@.take(it.index() + 1);
        let ghost before = lines(seen);
        let ghost old_current = current@;
        let ghost old_split = split@;
        assert(more.drop_last() =~= seen);
        assert(more.last() == c);
        assert(before.drop_last() =~= views(old_split));
        assert(before.last() == old_current);
        current.push(c);
        if c == '\n' {
            let ghost full = current@;
            split.push(current);
            current = String::new();
            assert(views(split@) =~= views(old_split).push(full));
            assert(views(split@).push(current@) =~= lines(more));
        } else {
            assert(views(split@).push(current@) =~= lines(more));
        }
    }
    assert(text@.take(text@.len() as int) =~= text@);
    let ghost done = split@;
    split.push(current);
    assert(views(split@) =~= views(done).push(current@));
    split
}

/// The UTF-8 length of each character of `run`.
pub fn widths_of(run: &str) -> (widths: Vec<u8>)
    ensures
        widths@ == utf8_widths(run@),
{
    let mut widths: Vec<u8> = Vec::new();
    for c in it: run.chars()
        invariant
            widths@ == utf8_widths(run@.take(it.index())),
            it.seq() == run@,
    {
        widths.push(utf8_len(c));
        assert(widths@ =~= utf8_widths(run@.take(it.index() + 1)));
    }
    assert(run@.take(run@.len() as int) =~= run@);
    widths
}

} // verus!
